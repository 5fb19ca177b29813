//! The bag of undrawn tiles and the racks of the players.
use vstd::prelude::*;
use vstd::multiset::Multiset;
use rand::rngs::StdRng;
use rand::seq::SliceRandom;
use rand::SeedableRng;
use crate::common::{is_letter, Player, TilePlacement, MAX_PLAYER_TILES, WILD};
use crate::rules::{nth_letter, rack_supplies, shortfall};
use crate::utils::occurrences;
use crate::text::{str_chars_to_vec, string_from_chars};
use crate::utils::{chars_sorted, sort_chars};

verus! {

broadcast use vstd::seq_lib::group_to_multiset_ensures;

/// Calls rand's `SliceRandom::shuffle` with `StdRng::seed_from_u64(seed)`.
/// rand documents `shuffle` as an in-place shuffle, so the result holds the
/// same tiles. Which order comes out is not stated: rand documents `StdRng`
/// as not portable, so the order may differ from one platform to another.
#[verifier::external_body]
pub fn shuffle_tiles_with_seed(tiles: &mut Vec<char>, seed: u64)
    ensures
        final(tiles)@.to_multiset() == old(tiles)@.to_multiset(),
{
    let mut rng = StdRng::seed_from_u64(seed);
    tiles.shuffle(&mut rng);
}

/// `bag` is the deal for `n` players from the shuffled tiles `s`: the racks
/// dealt from the end of `s`, the bag the rest of `s`.
pub open spec fn dealt_from(bag: TileBag, s: Seq<char>, n: int) -> bool {
    &&& s.to_multiset() == initial_tiles().to_multiset()
    &&& bag.tiles@ == s.take(100 - 7 * n)
    &&& forall|p: int| 0 <= p < n ==> #[trigger] bag.players_tiles@[p]@ == dealt_rack(s, n, p)
}

/// `bag` is a fresh deal for `n` players: the hundred tiles in some order,
/// seven dealt to each player, one per player per round, from the end.
pub open spec fn fresh_deal(bag: TileBag, n: int) -> bool {
    exists|s: Seq<char>| dealt_from(bag, s, n)
}

/// After an exchange: the bag `shuffled` (some order of `tiles` with the
/// returned tiles) refills the rack `m` from its end; `final_tiles` and
/// `final_rack` are what is left of the bag and the refilled rack.
pub open spec fn refilled_from(
    tiles: Seq<char>,
    m: Multiset<char>,
    shuffled: Seq<char>,
    final_tiles: Seq<char>,
    final_rack: Multiset<char>,
) -> bool {
    let n = draw_count(m.len() as int, tiles.len() as int);
    &&& shuffled.to_multiset() == tiles.to_multiset()
    &&& final_tiles == shuffled.take(tiles.len() - n)
    &&& final_rack == m.add(shuffled.subrange(tiles.len() - n, tiles.len() as int).to_multiset())
}

/// Calls `rand::random::<u64>()`; the value depends on chance, so nothing is
/// stated of it.
#[verifier::external_body]
pub fn random_seed() -> u64 {
    rand::random()
}

/// `n` copies of `c`.
pub open spec fn repeat_char(c: char, n: nat) -> Seq<char> {
    Seq::new(n, |i: int| c)
}

/// The hundred tiles of the game, in the order they go into the bag before
/// the first shuffle.
pub open spec fn initial_tiles() -> Seq<char> {
    repeat_char('E', 12) + repeat_char('A', 9) + repeat_char('I', 9) + repeat_char('O', 8)
        + repeat_char('N', 6) + repeat_char('R', 6) + repeat_char('T', 6) + repeat_char('D', 4)
        + repeat_char('L', 4) + repeat_char('S', 4) + repeat_char('U', 4) + repeat_char('G', 3)
        + repeat_char('B', 2) + repeat_char('C', 2) + repeat_char('M', 2) + repeat_char('P', 2)
        + repeat_char('F', 2) + repeat_char('H', 2) + repeat_char('V', 2) + repeat_char('W', 2)
        + repeat_char('Y', 2) + repeat_char(WILD, 2) + repeat_char('Q', 1) + repeat_char('Z', 1)
        + repeat_char('J', 1) + repeat_char('X', 1) + repeat_char('K', 1)
}

/// The rack dealt to player `p` of `n` from the shuffled tiles `s`: tiles are
/// drawn from the end of the bag, one per player per round, seven rounds.
pub open spec fn dealt_rack(s: Seq<char>, n: int, p: int) -> Seq<char> {
    Seq::new(7, |j: int| s[99 - (j * n + p)])
}

fn push_repeat(v: &mut Vec<char>, c: char, n: usize)
    ensures
        final(v)@ == old(v)@ + repeat_char(c, n as nat),
{
    let ghost start = v@;
    let mut i: usize = 0;
    while i < n
        invariant
            i <= n,
            v@ == start + repeat_char(c, i as nat),
        decreases n - i,
    {
        v.push(c);
        i = i + 1;
        assert(v@ =~= start + repeat_char(c, i as nat));
    }
}

fn push_to_rack(racks: &mut Vec<Vec<char>>, p: usize, t: char)
    requires
        p < old(racks)@.len(),
    ensures
        final(racks)@.len() == old(racks)@.len(),
        final(racks)@[p as int]@ == old(racks)@[p as int]@.push(t),
        forall|q: int| 0 <= q < old(racks)@.len() && q != p ==> #[trigger] final(racks)@[q] == old(racks)@[q],
{
    let mut r: Vec<char> = Vec::new();
    std::mem::swap(&mut r, &mut racks[p]);
    r.push(t);
    std::mem::swap(&mut r, &mut racks[p]);
}

/// The tiles of the bag and of every rack, together.
pub open spec fn racks_tiles(racks: Seq<Vec<char>>) -> Multiset<char>
    decreases racks.len(),
{
    if racks.len() == 0 {
        Multiset::empty()
    } else {
        racks_tiles(racks.drop_last()).add(racks.last()@.to_multiset())
    }
}

/// The tiles of a list of placements, in order.
pub open spec fn placement_chars(ps: Seq<TilePlacement>) -> Seq<char> {
    ps.map_values(|p: TilePlacement| p.tile)
}

/// The rack left after putting down `tiles` one after another: each tile
/// comes from the rack when it holds that letter, else a blank stands in for
/// it; `None` when neither is there.
pub open spec fn after_placing(rack: Multiset<char>, tiles: Seq<char>) -> Option<Multiset<char>>
    decreases tiles.len(),
{
    if tiles.len() == 0 {
        Some(rack)
    } else {
        match after_placing(rack, tiles.drop_last()) {
            None => None,
            Some(m) => {
                let t = tiles.last();
                if m.count(t) > 0 {
                    Some(m.remove(t))
                } else if m.count(WILD) > 0 {
                    Some(m.remove(WILD))
                } else {
                    None
                }
            },
        }
    }
}

/// How many tiles a rack of `held` tiles draws from a bag of `in_bag` tiles.
pub open spec fn draw_count(held: int, in_bag: int) -> int {
    if 7 - held < in_bag {
        7 - held
    } else {
        in_bag
    }
}

/// Changing one rack changes the tiles of all racks by what that rack lost and gained.
pub proof fn lemma_racks_tiles_update(a: Seq<Vec<char>>, b: Seq<Vec<char>>, p: int)
    requires
        a.len() == b.len(),
        0 <= p < a.len(),
        forall|q: int| 0 <= q < a.len() && q != p ==> (#[trigger] a[q])@ == b[q]@,
    ensures
        racks_tiles(b).add(a[p]@.to_multiset()) =~= racks_tiles(a).add(b[p]@.to_multiset()),
    decreases a.len(),
{
    broadcast use vstd::multiset::group_multiset_axioms;

    let ra = racks_tiles(a.drop_last());
    let rb = racks_tiles(b.drop_last());
    assert(racks_tiles(a) == ra.add(a.last()@.to_multiset()));
    assert(racks_tiles(b) == rb.add(b.last()@.to_multiset()));
    if p < a.len() - 1 {
        assert forall|q: int| 0 <= q < a.drop_last().len() && q != p implies (#[trigger] a.drop_last()[q])@ == b.drop_last()[q]@ by {
            assert(a[q]@ == b[q]@);
        }
        lemma_racks_tiles_update(a.drop_last(), b.drop_last(), p);
        assert(a.drop_last()[p] == a[p]);
        assert(b.drop_last()[p] == b[p]);
        assert(a.last()@ == b.last()@);
        assert(rb.add(a[p]@.to_multiset()) =~= ra.add(b[p]@.to_multiset()));
        assert forall|v: char| #[trigger] racks_tiles(b).add(a[p]@.to_multiset()).count(v) == racks_tiles(a).add(
            b[p]@.to_multiset(),
        ).count(v) by {
            assert(rb.add(a[p]@.to_multiset()).count(v) == ra.add(b[p]@.to_multiset()).count(v));
        }
        assert(racks_tiles(b).add(a[p]@.to_multiset()) =~= racks_tiles(a).add(b[p]@.to_multiset()));
    } else {
        assert forall|q: int| 0 <= q < a.drop_last().len() implies (#[trigger] a.drop_last()[q])@ == b.drop_last()[q]@ by {
            assert(a[q]@ == b[q]@);
        }
        lemma_racks_tiles_ext(a.drop_last(), b.drop_last());
        assert(ra == rb);
        assert(a.last() == a[p]);
        assert(b.last() == b[p]);
        assert(racks_tiles(b).add(a[p]@.to_multiset()) =~= racks_tiles(a).add(b[p]@.to_multiset()));
    }
}

/// Racks that hold the same tiles one by one hold the same tiles in all.
pub proof fn lemma_racks_tiles_ext(a: Seq<Vec<char>>, b: Seq<Vec<char>>)
    requires
        a.len() == b.len(),
        forall|q: int| 0 <= q < a.len() ==> (#[trigger] a[q])@ == b[q]@,
    ensures
        racks_tiles(a) == racks_tiles(b),
    decreases a.len(),
{
    if a.len() > 0 {
        lemma_racks_tiles_ext(a.drop_last(), b.drop_last());
        assert(a.last()@ == b.last()@);
    }
}

/// The bag and the racks of the players. `seed` and `exchange_count` fix the
/// shuffles of the bag.
pub struct TileBag {
    pub seed: u64,
    pub exchange_count: u64,
    pub tiles: Vec<char>,
    pub players_tiles: Vec<Vec<char>>,
}

impl TileBag {
    /// Every tile of the game still in play: the bag and the racks.
    pub open spec fn all_tiles(&self) -> Multiset<char> {
        self.tiles@.to_multiset().add(racks_tiles(self.players_tiles@))
    }

    /// A bag for `total_players` players shuffled with a random seed.
    pub fn new(total_players: usize) -> (res: TileBag)
        requires
            7 * total_players <= 100,
        ensures
            res.players_tiles@.len() == total_players,
            res.exchange_count == 0,
            res.all_tiles() == initial_tiles().to_multiset(),
            fresh_deal(res, total_players as int),
    {
        Self::new_with_seed(total_players, random_seed())
    }

    /// The hundred tiles of the game, in their order before any shuffle.
    pub fn initial_tile_vec() -> (res: Vec<char>)
        ensures
            res@ == initial_tiles(),
    {
        let mut all_tiles: Vec<char> = Vec::new();
        push_repeat(&mut all_tiles, 'E', 12);
        push_repeat(&mut all_tiles, 'A', 9);
        push_repeat(&mut all_tiles, 'I', 9);
        push_repeat(&mut all_tiles, 'O', 8);
        push_repeat(&mut all_tiles, 'N', 6);
        push_repeat(&mut all_tiles, 'R', 6);
        push_repeat(&mut all_tiles, 'T', 6);
        push_repeat(&mut all_tiles, 'D', 4);
        push_repeat(&mut all_tiles, 'L', 4);
        push_repeat(&mut all_tiles, 'S', 4);
        push_repeat(&mut all_tiles, 'U', 4);
        push_repeat(&mut all_tiles, 'G', 3);
        push_repeat(&mut all_tiles, 'B', 2);
        push_repeat(&mut all_tiles, 'C', 2);
        push_repeat(&mut all_tiles, 'M', 2);
        push_repeat(&mut all_tiles, 'P', 2);
        push_repeat(&mut all_tiles, 'F', 2);
        push_repeat(&mut all_tiles, 'H', 2);
        push_repeat(&mut all_tiles, 'V', 2);
        push_repeat(&mut all_tiles, 'W', 2);
        push_repeat(&mut all_tiles, 'Y', 2);
        push_repeat(&mut all_tiles, WILD, 2);
        push_repeat(&mut all_tiles, 'Q', 1);
        push_repeat(&mut all_tiles, 'Z', 1);
        push_repeat(&mut all_tiles, 'J', 1);
        push_repeat(&mut all_tiles, 'X', 1);
        push_repeat(&mut all_tiles, 'K', 1);
        assert(all_tiles@ == initial_tiles());
        all_tiles
    }

    /// A bag for `total_players` players: the hundred tiles shuffled with
    /// `seed`, then seven tiles dealt to each player, one per player per round,
    /// from the end of the bag.
    pub fn new_with_seed(total_players: usize, seed: u64) -> (res: TileBag)
        requires
            7 * total_players <= 100,
        ensures
            res.players_tiles@.len() == total_players,
            res.seed == seed,
            res.exchange_count == 0,
            res.all_tiles() == initial_tiles().to_multiset(),
            fresh_deal(res, total_players as int),
    {
        let mut all_tiles = Self::initial_tile_vec();
        assert(all_tiles@ == initial_tiles());
        shuffle_tiles_with_seed(&mut all_tiles, seed);
        let ghost s = all_tiles@;
        assert(s.len() == 100) by {
            assert(initial_tiles().to_multiset().len() == 100);
        }
        let res = Self::deal_from(all_tiles, total_players, seed);
        assert(dealt_from(res, s, total_players as int));
        res
    }

    /// The bag for `total_players` players dealt from the hundred tiles
    /// `shuffled` in that order: seven rounds, one tile per player per round,
    /// each taken from the end; the bag keeps the rest in order.
    pub fn deal_from(shuffled: Vec<char>, total_players: usize, seed: u64) -> (res: TileBag)
        requires
            shuffled@.len() == 100,
            7 * total_players <= 100,
        ensures
            res.players_tiles@.len() == total_players,
            res.seed == seed,
            res.exchange_count == 0,
            res.tiles@ == shuffled@.take(100 - 7 * total_players),
            forall|p: int|
                0 <= p < total_players ==> #[trigger] res.players_tiles@[p]@ == dealt_rack(shuffled@, total_players as int, p),
            res.all_tiles() == shuffled@.to_multiset(),
    {
        let mut all_tiles = shuffled;
        let ghost s = all_tiles@;
        let n = total_players;
        let mut players_tiles: Vec<Vec<char>> = Vec::new();
        let mut q: usize = 0;
        while q < n
            invariant
                q <= n,
                players_tiles@.len() == q,
                forall|m: int| 0 <= m < q ==> (#[trigger] players_tiles@[m])@.len() == 0,
                racks_tiles(players_tiles@) =~= Multiset::<char>::empty(),
            decreases n - q,
        {
            let ghost before = players_tiles@;
            players_tiles.push(Vec::new());
            proof {
                assert(players_tiles@.drop_last() =~= before);
                assert(players_tiles@.last()@.to_multiset() =~= Multiset::<char>::empty());
                broadcast use vstd::multiset::group_multiset_axioms;
            }
            q = q + 1;
        }
        assert(all_tiles@.to_multiset().add(racks_tiles(players_tiles@)) =~= s.to_multiset()) by {
            broadcast use vstd::multiset::group_multiset_axioms;
        }
        let mut j: usize = 0;
        while j < MAX_PLAYER_TILES
            invariant
                7 * n <= 100,
                s.len() == 100,
                j <= 7,
                players_tiles@.len() == n,
                all_tiles@ == s.take(100 - j * n),
                forall|m: int|
                    0 <= m < n ==> #[trigger] players_tiles@[m]@ == Seq::new(j as nat, |jj: int| s[99 - (jj * n + m)]),
                all_tiles@.to_multiset().add(racks_tiles(players_tiles@)) == s.to_multiset(),
            decreases 7 - j,
        {
            assert(j * n + n <= 7 * n) by (nonlinear_arith)
                requires
                    j < 7,
            ;
            let mut p: usize = 0;
            while p < n
                invariant
                    7 * n <= 100,
                    s.len() == 100,
                    j < 7,
                    p <= n,
                    players_tiles@.len() == n,
                    all_tiles@ == s.take(100 - (j * n + p)),
                    j * n + n <= 7 * n,
                    all_tiles@.to_multiset().add(racks_tiles(players_tiles@)) == s.to_multiset(),
                    forall|m: int|
                        0 <= m < n ==> #[trigger] players_tiles@[m]@ == Seq::new(
                            (if m < p {
                                j + 1
                            } else {
                                j as int
                            }) as nat,
                            |jj: int| s[99 - (jj * n + m)],
                        ),
                decreases n - p,
            {
                let ghost tiles_before = all_tiles@;
                let t = all_tiles.pop().unwrap();
                assert(t == s[99 - (j * n + p)]);
                let ghost before = players_tiles@;
                push_to_rack(&mut players_tiles, p, t);
                proof {
                    broadcast use vstd::multiset::group_multiset_axioms;

                    assert(tiles_before =~= all_tiles@.push(t));
                    assert(all_tiles@.push(t).to_multiset() == all_tiles@.to_multiset().insert(t));
                    lemma_racks_tiles_update(before, players_tiles@, p as int);
                    assert(players_tiles@[p as int]@ == before[p as int]@.push(t));
                    assert(before[p as int]@.push(t).to_multiset() == before[p as int]@.to_multiset().insert(t));
                    assert forall|v: char| #[trigger] all_tiles@.to_multiset().add(racks_tiles(players_tiles@)).count(v)
                        == s.to_multiset().count(v) by {
                        assert(racks_tiles(players_tiles@).add(before[p as int]@.to_multiset()).count(v)
                            == racks_tiles(before).add(players_tiles@[p as int]@.to_multiset()).count(v));
                        assert(tiles_before.to_multiset().add(racks_tiles(before)).count(v) == s.to_multiset().count(v));
                    }
                    assert(all_tiles@.to_multiset().add(racks_tiles(players_tiles@)) =~= s.to_multiset());
                }
                assert(players_tiles@[p as int]@ =~= Seq::new((j + 1) as nat, |jj: int| s[99 - (jj * n + p)]));
                assert(all_tiles@ =~= s.take(100 - (j * n + p + 1)));
                p = p + 1;
            }
            assert((j + 1) * n == j * n + n) by (nonlinear_arith);
            assert forall|m: int| 0 <= m < n implies #[trigger] players_tiles@[m]@ =~= Seq::new(
                (j + 1) as nat,
                |jj: int| s[99 - (jj * n + m)],
            ) by {}
            j = j + 1;
        }
        assert forall|m: int| 0 <= m < n implies #[trigger] players_tiles@[m]@ =~= dealt_rack(s, n as int, m) by {}
        TileBag { seed, exchange_count: 0, tiles: all_tiles, players_tiles }
    }

    /// Number of tiles left in the bag.
    pub fn get_tile_count(&self) -> (res: usize)
        ensures
            res == self.tiles@.len(),
    {
        self.tiles.len()
    }

    /// The tiles of player `turn`, in ascending order.
    pub fn get_tiles(&self, turn: Player) -> (res: String)
        requires
            turn < self.players_tiles@.len(),
        ensures
            chars_sorted(res@),
            res@.to_multiset() == self.players_tiles@[turn as int]@.to_multiset(),
    {
        let sorted = sort_chars(&self.players_tiles[turn]);
        string_from_chars(&sorted)
    }

    /// Moves tiles from the end of the bag into the rack of `turn` until the
    /// rack holds seven tiles or the bag is empty.
    pub fn replenish(&mut self, turn: Player)
        requires
            turn < old(self).players_tiles@.len(),
            old(self).players_tiles@[turn as int]@.len() <= 7,
        ensures
            ({
                let held = old(self).players_tiles@[turn as int]@;
                let bag = old(self).tiles@;
                let n = draw_count(held.len() as int, bag.len() as int);
                &&& final(self).tiles@ == bag.take(bag.len() - n)
                &&& final(self).players_tiles@[turn as int]@.to_multiset() == held.to_multiset().add(
                    bag.subrange(bag.len() - n, bag.len() as int).to_multiset(),
                )
            }),
            final(self).players_tiles@.len() == old(self).players_tiles@.len(),
            forall|q: int|
                0 <= q < old(self).players_tiles@.len() && q != turn ==> #[trigger] final(self).players_tiles@[q]
                    == old(self).players_tiles@[q],
            final(self).seed == old(self).seed,
            final(self).exchange_count == old(self).exchange_count,
            final(self).all_tiles() == old(self).all_tiles(),
    {
        broadcast use vstd::multiset::group_multiset_axioms;

        let ghost held = self.players_tiles@[turn as int]@;
        let ghost bag = self.tiles@;
        let ghost old_racks = self.players_tiles@;
        let held_len = self.players_tiles[turn].len();
        let n = if MAX_PLAYER_TILES - held_len < self.tiles.len() {
            MAX_PLAYER_TILES - held_len
        } else {
            self.tiles.len()
        };
        let mut i: usize = 0;
        while i < n
            invariant
                turn < self.players_tiles@.len(),
                n <= bag.len(),
                i <= n,
                self.tiles@ == bag.take(bag.len() - i),
                self.players_tiles@.len() == old_racks.len(),
                self.players_tiles@[turn as int]@.to_multiset() == held.to_multiset().add(
                    bag.subrange(bag.len() - i, bag.len() as int).to_multiset(),
                ),
                forall|q: int|
                    0 <= q < old_racks.len() && q != turn ==> #[trigger] self.players_tiles@[q] == old_racks[q],
                self.seed == old(self).seed,
                self.exchange_count == old(self).exchange_count,
                self.tiles@.to_multiset().add(racks_tiles(self.players_tiles@)) == bag.to_multiset().add(
                    racks_tiles(old_racks),
                ),
            decreases n - i,
        {
            let ghost racks_before = self.players_tiles@;
            let ghost tiles_before = self.tiles@;
            let t = self.tiles.pop().unwrap();
            push_to_rack(&mut self.players_tiles, turn, t);
            proof {
                let k = bag.len() - i;
                assert(t == bag[k - 1]);
                assert(bag.subrange(k - 1, bag.len() as int) =~= seq![t] + bag.subrange(k, bag.len() as int));
                assert(seq![t] =~= Seq::<char>::empty().push(t));
                vstd::seq_lib::lemma_multiset_commutative(seq![t], bag.subrange(k, bag.len() as int));
                assert(self.tiles@ =~= bag.take(k - 1));
                assert(tiles_before =~= self.tiles@.push(t));
                assert(self.tiles@.push(t).to_multiset() == self.tiles@.to_multiset().insert(t));
                lemma_racks_tiles_update(racks_before, self.players_tiles@, turn as int);
                assert(self.players_tiles@[turn as int]@ == racks_before[turn as int]@.push(t));
                assert(racks_before[turn as int]@.push(t).to_multiset() == racks_before[turn as int]@.to_multiset().insert(t));
                assert forall|v: char| #[trigger] racks_tiles(self.players_tiles@).count(v) == racks_tiles(
                    racks_before,
                ).insert(t).count(v) by {
                    assert(racks_tiles(self.players_tiles@).add(racks_before[turn as int]@.to_multiset()).count(v)
                        == racks_tiles(racks_before).add(self.players_tiles@[turn as int]@.to_multiset()).count(v));
                }
                assert(racks_tiles(self.players_tiles@) =~= racks_tiles(racks_before).insert(t));
                assert(self.tiles@.to_multiset().add(racks_tiles(self.players_tiles@)) =~= tiles_before.to_multiset().add(
                    racks_tiles(racks_before),
                ));
                assert(self.players_tiles@[turn as int]@.to_multiset() =~= held.to_multiset().add(
                    bag.subrange(k - 1, bag.len() as int).to_multiset(),
                ));
            }
            i = i + 1;
        }
    }

    /// Removes the tiles of `placements` from the rack of `turn` (a blank
    /// standing in for a letter the rack lacks), then refills the rack from
    /// the end of the bag up to seven tiles or until the bag is empty.
    pub fn remove_and_replenish(&mut self, turn: Player, placements: &Vec<TilePlacement>)
        requires
            turn < old(self).players_tiles@.len(),
            after_placing(old(self).players_tiles@[turn as int]@.to_multiset(), placement_chars(placements@)) is Some,
            after_placing(old(self).players_tiles@[turn as int]@.to_multiset(), placement_chars(placements@))->0.len() <= 7,
        ensures
            ({
                let m = after_placing(old(self).players_tiles@[turn as int]@.to_multiset(), placement_chars(placements@))->0;
                let bag = old(self).tiles@;
                let n = draw_count(m.len() as int, bag.len() as int);
                &&& final(self).tiles@ == bag.take(bag.len() - n)
                &&& final(self).players_tiles@[turn as int]@.to_multiset() == m.add(
                    bag.subrange(bag.len() - n, bag.len() as int).to_multiset(),
                )
                &&& final(self).all_tiles().add(old(self).players_tiles@[turn as int]@.to_multiset()) == old(self).all_tiles().add(m)
            }),
            final(self).players_tiles@.len() == old(self).players_tiles@.len(),
            forall|q: int|
                0 <= q < old(self).players_tiles@.len() && q != turn ==> #[trigger] final(self).players_tiles@[q]
                    == old(self).players_tiles@[q],
            final(self).seed == old(self).seed,
            final(self).exchange_count == old(self).exchange_count,
    {
        broadcast use vstd::multiset::group_multiset_axioms;

        let ghost rack0 = self.players_tiles@[turn as int]@;
        let ghost racks0 = self.players_tiles@;
        let ghost pcs = placement_chars(placements@);
        let mut rack: Vec<char> = Vec::new();
        std::mem::swap(&mut rack, &mut self.players_tiles[turn]);
        let mut i: usize = 0;
        while i < placements.len()
            invariant
                i <= placements@.len(),
                pcs == placement_chars(placements@),
                after_placing(rack0.to_multiset(), pcs) is Some,
                after_placing(rack0.to_multiset(), pcs.take(i as int)) == Some(rack@.to_multiset()),
            decreases placements@.len() - i,
        {
            let tile = placements[i].tile;
            assert(pcs.take(i + 1).drop_last() =~= pcs.take(i as int));
            assert(pcs.take(i + 1).last() == tile);
            proof {
                lemma_after_placing_prefix(rack0.to_multiset(), pcs, i + 1);
            }
            match find_char(&rack, tile) {
                Some(idx) => {
                    rack.remove(idx);
                },
                None => {
                    match find_char(&rack, WILD) {
                        Some(idx) => {
                            rack.remove(idx);
                        },
                        None => {
                            assert(false);
                        },
                    }
                },
            }
            i = i + 1;
        }
        assert(pcs.take(placements@.len() as int) =~= pcs);
        let ghost m = rack@.to_multiset();
        std::mem::swap(&mut rack, &mut self.players_tiles[turn]);
        proof {
            lemma_racks_tiles_update(racks0, self.players_tiles@, turn as int);
            assert(self.players_tiles@[turn as int]@.to_multiset() == m);
        }
        let ghost mid = self.all_tiles();
        proof {
            assert forall|v: char| #[trigger] mid.add(rack0.to_multiset()).count(v) == old(self).all_tiles().add(m).count(v) by {
                assert(racks_tiles(self.players_tiles@).add(racks0[turn as int]@.to_multiset()).count(v)
                    == racks_tiles(racks0).add(self.players_tiles@[turn as int]@.to_multiset()).count(v));
            }
            assert(mid.add(rack0.to_multiset()) =~= old(self).all_tiles().add(m));
        }
        self.replenish(turn);
    }

    /// Puts `tiles` from the rack of `turn` back into the bag, reshuffles the
    /// bag with the seed combined with the number of earlier exchanges, and
    /// refills the rack.
    pub fn exchange(&mut self, turn: Player, tiles: String)
        requires
            old(self).tiles@.len() >= 7,
            turn < old(self).players_tiles@.len(),
            tiles@.to_multiset().subset_of(old(self).players_tiles@[turn as int]@.to_multiset()),
            old(self).players_tiles@[turn as int]@.len() - tiles@.len() <= 7,
            old(self).exchange_count < u64::MAX,
        ensures
            ({
                let m = old(self).players_tiles@[turn as int]@.to_multiset().sub(tiles@.to_multiset());
                exists|b: Seq<char>|
                    refilled_from(
                        old(self).tiles@ + tiles@,
                        m,
                        b,
                        final(self).tiles@,
                        final(self).players_tiles@[turn as int]@.to_multiset(),
                    )
            }),
            final(self).players_tiles@.len() == old(self).players_tiles@.len(),
            forall|q: int|
                0 <= q < old(self).players_tiles@.len() && q != turn ==> #[trigger] final(self).players_tiles@[q]
                    == old(self).players_tiles@[q],
            final(self).seed == old(self).seed,
            final(self).exchange_count == old(self).exchange_count + 1,
            final(self).all_tiles() == old(self).all_tiles(),
            final(self).players_tiles@[turn as int]@.len() == 7,
    {
        broadcast use vstd::multiset::group_multiset_axioms;

        let ghost rack0 = self.players_tiles@[turn as int]@;
        let ghost racks0 = self.players_tiles@;
        let ghost bag0 = self.tiles@;
        let ts = str_chars_to_vec(&tiles);
        let mut rack: Vec<char> = Vec::new();
        std::mem::swap(&mut rack, &mut self.players_tiles[turn]);
        let mut i: usize = 0;
        while i < ts.len()
            invariant
                ts@ == tiles@,
                i <= ts@.len(),
                ts@.to_multiset().subset_of(rack0.to_multiset()),
                rack@.to_multiset() == rack0.to_multiset().sub(ts@.take(i as int).to_multiset()),
                rack@.len() == rack0.len() - i,
                self.tiles@ == bag0 + ts@.take(i as int),
                self.players_tiles@.len() == racks0.len(),
                turn < racks0.len(),
                forall|q: int| 0 <= q < racks0.len() && q != turn ==> #[trigger] self.players_tiles@[q] == racks0[q],
                self.seed == old(self).seed,
                self.exchange_count == old(self).exchange_count,
            decreases ts@.len() - i,
        {
            let tile = ts[i];
            proof {
                assert(ts@.take(i + 1) =~= ts@.take(i as int).push(tile));
                assert(ts@.take(i + 1).to_multiset().subset_of(ts@.to_multiset())) by {
                    assert(ts@ =~= ts@.take(i + 1) + ts@.skip(i + 1));
                    vstd::seq_lib::lemma_multiset_commutative(ts@.take(i + 1), ts@.skip(i + 1));
                }
                assert(rack@.to_multiset().count(tile) > 0);
            }
            match find_char(&rack, tile) {
                Some(idx) => {
                    rack.remove(idx);
                },
                None => {
                    assert(false);
                },
            }
            // And then add it back to the bag.
            self.tiles.push(tile);
            assert(rack@.to_multiset() =~= rack0.to_multiset().sub(ts@.take(i + 1).to_multiset()));
            assert(self.tiles@ =~= bag0 + ts@.take(i + 1));
            i = i + 1;
        }
        assert(ts@.take(ts@.len() as int) =~= ts@);
        std::mem::swap(&mut rack, &mut self.players_tiles[turn]);
        proof {
            lemma_racks_tiles_update(racks0, self.players_tiles@, turn as int);
            vstd::seq_lib::lemma_multiset_commutative(bag0, tiles@);
            assert(self.players_tiles@[turn as int]@.to_multiset() == rack0.to_multiset().sub(tiles@.to_multiset()));
            assert(self.tiles@.to_multiset() == bag0.to_multiset().add(tiles@.to_multiset()));
            assert forall|v: char| #[trigger] self.all_tiles().count(v) == old(self).all_tiles().count(v) by {
                assert(racks_tiles(self.players_tiles@).add(racks0[turn as int]@.to_multiset()).count(v)
                    == racks_tiles(racks0).add(self.players_tiles@[turn as int]@.to_multiset()).count(v));
                assert(tiles@.to_multiset().subset_of(rack0.to_multiset()));
                assert(tiles@.to_multiset().count(v) <= rack0.to_multiset().count(v));
            }
            assert(self.all_tiles() =~= old(self).all_tiles());
        }
        // Shuffle with the seed and the exchange count, so that a restored game
        // reshuffles as the saved one would (rand does not promise the same
        // order on another platform).
        let shuffle_seed = self.seed ^ self.exchange_count;
        shuffle_tiles_with_seed(&mut self.tiles, shuffle_seed);
        self.exchange_count = self.exchange_count + 1;
        let ghost held = self.players_tiles@[turn as int]@;
        let ghost bag1 = self.tiles@;
        proof {
            assert(bag1.to_multiset().len() == bag1.len());
            assert((bag0 + tiles@).to_multiset().len() == (bag0 + tiles@).len());
            assert(held.to_multiset().len() == held.len());
            assert(rack0.to_multiset().len() == rack0.len());
            assert(tiles@.to_multiset().len() == tiles@.len());
        }
        // Then replenish
        self.replenish(turn);
        proof {
            let n = draw_count(held.len() as int, bag1.len() as int);
            let r = self.players_tiles@[turn as int]@;
            assert(r.to_multiset().len() == r.len());
            assert(bag1.subrange(bag1.len() - n, bag1.len() as int).to_multiset().len() == n);
            assert(refilled_from(bag0 + tiles@, held.to_multiset(), bag1, self.tiles@, r.to_multiset()));
        }
    }
}

/// Index of the first occurrence of `c` in `v`.
pub fn find_char(v: &Vec<char>, c: char) -> (res: Option<usize>)
    ensures
        match res {
            Some(i) => i < v@.len() && v@[i as int] == c,
            None => !v@.contains(c),
        },
{
    let mut i: usize = 0;
    while i < v.len()
        invariant
            i <= v@.len(),
            forall|k: int| 0 <= k < i ==> v@[k] != c,
        decreases v@.len() - i,
    {
        if v[i] == c {
            return Some(i);
        }
        i = i + 1;
    }
    None
}

/// Tiles that can be put down from a rack can be put down in part, from the start.
pub proof fn lemma_after_placing_prefix(rack: Multiset<char>, tiles: Seq<char>, i: int)
    requires
        0 <= i <= tiles.len(),
        after_placing(rack, tiles) is Some,
    ensures
        after_placing(rack, tiles.take(i)) is Some,
    decreases tiles.len() - i,
{
    if i < tiles.len() {
        lemma_after_placing_prefix(rack, tiles, i + 1);
        assert(tiles.take(i + 1).drop_last() =~= tiles.take(i));
    } else {
        assert(tiles.take(i) =~= tiles);
    }
}

/// One rack's tiles are among the tiles of all racks.
pub proof fn lemma_rack_in_racks(racks: Seq<Vec<char>>, p: int)
    requires
        0 <= p < racks.len(),
    ensures
        racks[p]@.to_multiset().subset_of(racks_tiles(racks)),
    decreases racks.len(),
{
    broadcast use vstd::multiset::group_multiset_axioms;

    if p < racks.len() - 1 {
        lemma_rack_in_racks(racks.drop_last(), p);
        assert(racks.drop_last()[p] == racks[p]);
    }
}

/// Putting down tiles takes one tile of the rack for each.
pub proof fn lemma_after_placing_len(rack: Multiset<char>, tiles: Seq<char>)
    requires
        after_placing(rack, tiles) is Some,
    ensures
        after_placing(rack, tiles)->0.len() + tiles.len() == rack.len(),
        after_placing(rack, tiles)->0.subset_of(rack),
    decreases tiles.len(),
{
    broadcast use vstd::multiset::group_multiset_axioms;

    if tiles.len() > 0 {
        lemma_after_placing_len(rack, tiles.drop_last());
        let m = after_placing(rack, tiles.drop_last())->0;
        let t = tiles.last();
        if m.count(t) > 0 {
            assert(Multiset::singleton(t).subset_of(m));
        } else {
            assert(Multiset::singleton(WILD).subset_of(m));
        }
    }
}

/// Adding a letter to what is needed adds one to the shortfall exactly when
/// the rack's own copies of that letter are already used up.
pub proof fn lemma_shortfall_push(rack: Seq<char>, s: Seq<char>, t: char, n: int)
    requires
        0 <= n <= 26,
        is_letter(t),
    ensures
        shortfall(rack, s.push(t), n) == shortfall(rack, s, n) + (if (t as int) - 65 < n && occurrences(s, t)
            >= occurrences(rack, t) {
            1int
        } else {
            0int
        }),
    decreases n,
{
    broadcast use vstd::multiset::group_multiset_axioms;

    if n > 0 {
        lemma_shortfall_push(rack, s, t, n - 1);
        let l = nth_letter(n - 1);
        assert((l as int) == 65 + n - 1);
        assert(s.push(t).to_multiset() == s.to_multiset().insert(t));
        if (t as int) - 65 == n - 1 {
            assert(l == t);
        } else {
            assert(l != t);
            assert(occurrences(s.push(t), l) == occurrences(s, l));
        }
    }
}

/// The shortfall of a prefix of what is needed is no greater than that of the whole.
pub proof fn lemma_shortfall_prefix(rack: Seq<char>, need: Seq<char>, j: int)
    requires
        0 <= j <= need.len(),
        forall|i: int| 0 <= i < need.len() ==> is_letter(#[trigger] need[i]),
    ensures
        shortfall(rack, need.take(j), 26) <= shortfall(rack, need, 26),
    decreases need.len() - j,
{
    if j < need.len() {
        lemma_shortfall_prefix(rack, need, j + 1);
        assert(need.take(j + 1) =~= need.take(j).push(need[j]));
        lemma_shortfall_push(rack, need.take(j), need[j], 26);
    } else {
        assert(need.take(j) =~= need);
    }
}

/// What is left of the rack after the first `j` needed letters are put down:
/// each letter takes the rack's own copies first, then blanks.
proof fn lemma_place_prefix(rack: Seq<char>, need: Seq<char>, j: int)
    requires
        0 <= j <= need.len(),
        forall|i: int| 0 <= i < need.len() ==> is_letter(#[trigger] need[i]),
        rack_supplies(rack, need),
    ensures
        after_placing(rack.to_multiset(), need.take(j)) is Some,
        forall|l: char|
            is_letter(l) ==> #[trigger] after_placing(rack.to_multiset(), need.take(j))->0.count(l) == rack.to_multiset().count(l)
                - (if occurrences(need.take(j), l) < rack.to_multiset().count(l) {
                occurrences(need.take(j), l) as int
            } else {
                rack.to_multiset().count(l) as int
            }),
        after_placing(rack.to_multiset(), need.take(j))->0.count(WILD) + shortfall(rack, need.take(j), 26)
            == rack.to_multiset().count(WILD),
    decreases j,
{
    broadcast use vstd::multiset::group_multiset_axioms;

    let r = rack.to_multiset();
    if j == 0 {
        assert(need.take(0) =~= Seq::<char>::empty());
        assert(shortfall(rack, need.take(0), 26) == 0) by {
            lemma_shortfall_zero(rack, 26);
        }
    } else {
        lemma_place_prefix(rack, need, j - 1);
        let s = need.take(j - 1);
        let t = need[j - 1];
        assert(need.take(j) =~= s.push(t));
        assert(need.take(j).drop_last() =~= s);
        let m = after_placing(r, s)->0;
        lemma_shortfall_push(rack, s, t, 26);
        lemma_shortfall_prefix(rack, need, j);
        assert(s.push(t).to_multiset() == s.to_multiset().insert(t));
        assert(t != WILD);
        assert((t as int) - 65 < 26);
        if m.count(t) > 0 {
            assert(occurrences(s, t) < r.count(t));
        } else {
            assert(occurrences(s, t) >= r.count(t));
            assert(m.count(WILD) > 0);
        }
    }
}

proof fn lemma_shortfall_zero(rack: Seq<char>, n: int)
    requires
        n >= 0,
    ensures
        shortfall(rack, Seq::<char>::empty(), n) == 0,
    decreases n,
{
    if n > 0 {
        lemma_shortfall_zero(rack, n - 1);
        assert(Seq::<char>::empty().to_multiset().count(nth_letter(n - 1)) == 0);
    }
}

/// Letters that the rack supplies (blanks standing in for missing ones) can
/// be put down from it one after another.
pub proof fn lemma_supplied_letters_place(rack: Seq<char>, need: Seq<char>)
    requires
        forall|i: int| 0 <= i < need.len() ==> is_letter(#[trigger] need[i]),
        rack_supplies(rack, need),
    ensures
        after_placing(rack.to_multiset(), need) is Some,
{
    lemma_place_prefix(rack, need, need.len() as int);
    assert(need.take(need.len() as int) =~= need);
}

} // verus!
