//! The order in which moves are offered: best score first, then by where
//! the tiles go.
use vstd::prelude::*;
use crate::common::{PossibleMove, TilePlacement};
use crate::dictionary::{compare_words, lemma_lex_irreflexive, lemma_lex_total, lemma_lex_transitive, lex_lt};
use crate::rules::{move_view, moves_view};
use vstd::multiset::Multiset;

verus! {

broadcast use vstd::seq_lib::group_to_multiset_ensures;

/// The two decimal digits of `n` (below 100), as `{:02}` writes them.
pub open spec fn two_digits(n: int) -> Seq<char> {
    seq![(48 + n / 10) as char, (48 + n % 10) as char]
}

/// The key of one tile: row, column (two digits each), then the letter.
pub open spec fn tile_key(t: TilePlacement) -> Seq<char> {
    two_digits(t.coords.0 as int) + two_digits(t.coords.1 as int) + seq![t.tile]
}

/// The key of a move: the keys of its tiles joined by `|`.
pub open spec fn move_key(tiles: Seq<TilePlacement>) -> Seq<char>
    decreases tiles.len(),
{
    if tiles.len() == 0 {
        seq![]
    } else if tiles.len() == 1 {
        tile_key(tiles[0])
    } else {
        move_key(tiles.drop_last()) + seq!['|'] + tile_key(tiles.last())
    }
}

/// Move `a` may come before move `b`: a higher score, or the same score and a
/// key that is not greater.
pub open spec fn ranks_before(a: (Seq<TilePlacement>, nat), b: (Seq<TilePlacement>, nat)) -> bool {
    a.1 > b.1 || (a.1 == b.1 && !lex_lt(move_key(b.0), move_key(a.0)))
}

/// Moves in the order of `ranks_before`.
pub open spec fn moves_ranked(s: Seq<(Seq<TilePlacement>, nat)>) -> bool {
    forall|i: int, j: int| 0 <= i < j < s.len() ==> ranks_before(#[trigger] s[i], #[trigger] s[j])
}

/// Any two moves can be put in order, one way or the other.
pub proof fn lemma_ranks_total(a: (Seq<TilePlacement>, nat), b: (Seq<TilePlacement>, nat))
    ensures
        ranks_before(a, b) || ranks_before(b, a),
{
    let ka = move_key(a.0);
    let kb = move_key(b.0);
    if lex_lt(ka, kb) && lex_lt(kb, ka) {
        lemma_lex_transitive(ka, kb, ka);
        lemma_lex_irreflexive(ka);
    }
}

/// Ranking is transitive.
pub proof fn lemma_ranks_transitive(a: (Seq<TilePlacement>, nat), b: (Seq<TilePlacement>, nat), c: (Seq<TilePlacement>, nat))
    requires
        ranks_before(a, b),
        ranks_before(b, c),
    ensures
        ranks_before(a, c),
{
    if a.1 == b.1 && b.1 == c.1 {
        let ka = move_key(a.0);
        let kb = move_key(b.0);
        let kc = move_key(c.0);
        if lex_lt(kc, ka) {
            lemma_lex_total(kb, kc);
            lemma_lex_total(ka, kb);
            if kb == kc {
            } else if lex_lt(kc, kb) {
            } else {
                // kb < kc and kc < ka gives kb < ka
                lemma_lex_transitive(kb, kc, ka);
            }
        }
    }
}

fn push_digits(key: &mut Vec<char>, n: usize)
    requires
        n < 100,
    ensures
        final(key)@ == old(key)@ + two_digits(n as int),
{
    let tens = (48u8 + (n / 10) as u8) as char;
    let ones = (48u8 + (n % 10) as u8) as char;
    key.push(tens);
    key.push(ones);
    assert(final(key)@ =~= old(key)@ + two_digits(n as int));
}

/// The key of a move: row and column of each tile (two digits each) and
/// the tile, tiles separated by `|`.
pub fn move_sort_key(move_to_sort: &PossibleMove) -> (res: Vec<char>)
    requires
        forall|i: int|
            0 <= i < move_to_sort.tiles@.len() ==> (#[trigger] move_to_sort.tiles@[i]).coords.0 < 100
                && move_to_sort.tiles@[i].coords.1 < 100,
    ensures
        res@ == move_key(move_to_sort.tiles@),
{
    let tiles = &move_to_sort.tiles;
    let mut key: Vec<char> = Vec::new();
    let mut i: usize = 0;
    while i < tiles.len()
        invariant
            forall|k: int| 0 <= k < tiles@.len() ==> (#[trigger] tiles@[k]).coords.0 < 100 && tiles@[k].coords.1 < 100,
            i <= tiles@.len(),
            key@ == move_key(tiles@.take(i as int)),
        decreases tiles@.len() - i,
    {
        let t = tiles[i];
        let ghost before = key@;
        if i > 0 {
            key.push('|');
        }
        push_digits(&mut key, t.coords.0);
        push_digits(&mut key, t.coords.1);
        key.push(t.tile);
        proof {
            assert(tiles@.take(i + 1).drop_last() =~= tiles@.take(i as int));
            assert(tiles@.take(i + 1).last() == t);
            if i == 0 {
                assert(tiles@.take(1)[0] == t);
            }
            assert(key@ =~= move_key(tiles@.take(i + 1)));
        }
        i = i + 1;
    }
    assert(tiles@.take(i as int) =~= tiles@);
    key
}

/// Orders moves by score, highest first, then by key, for a deterministic order.
pub fn rank_moves(moves: Vec<PossibleMove>) -> (res: Vec<PossibleMove>)
    requires
        forall|m: int, i: int|
            0 <= m < moves@.len() && 0 <= i < moves@[m].tiles@.len() ==> (#[trigger] moves@[m].tiles@[i]).coords.0 < 100
                && moves@[m].tiles@[i].coords.1 < 100,
    ensures
        moves_view(res@).to_multiset() == moves_view(moves@).to_multiset(),
        moves_ranked(moves_view(res@)),
{
    let ghost orig = moves_view(moves@);
    let mut rest = moves;
    let mut keys: Vec<Vec<char>> = Vec::new();
    let mut out: Vec<PossibleMove> = Vec::new();
    while rest.len() > 0
        invariant
            forall|m: int, i: int|
                0 <= m < rest@.len() && 0 <= i < rest@[m].tiles@.len() ==> (#[trigger] rest@[m].tiles@[i]).coords.0 < 100
                    && rest@[m].tiles@[i].coords.1 < 100,
            keys@.len() == out@.len(),
            forall|k: int| 0 <= k < out@.len() ==> (#[trigger] keys@[k])@ == move_key(out@[k].tiles@),
            moves_ranked(moves_view(out@)),
            moves_view(out@).to_multiset().add(moves_view(rest@).to_multiset()) == orig.to_multiset(),
        decreases rest@.len(),
    {
        let ghost rest_before = rest@;
        let m = rest.pop().unwrap();
        proof {
            assert(rest_before =~= rest@.push(m));
            assert(moves_view(rest_before) =~= moves_view(rest@).push(move_view(m)));
            assert forall|i: int| 0 <= i < m.tiles@.len() implies (#[trigger] m.tiles@[i]).coords.0 < 100 && m.tiles@[i].coords.1 < 100 by {
                assert(rest_before[rest_before.len() - 1] == m);
                assert(rest_before[rest_before.len() - 1].tiles@[i] == m.tiles@[i]);
            }
        }
        let key = move_sort_key(&m);
        let ghost e = move_view(m);
        let mut pos: usize = 0;
        while pos < out.len() && (out[pos].score > m.score || (out[pos].score == m.score && compare_words(&key, &keys[pos]) >= 0))
            invariant
                keys@.len() == out@.len(),
                forall|k: int| 0 <= k < out@.len() ==> (#[trigger] keys@[k])@ == move_key(out@[k].tiles@),
                key@ == move_key(m.tiles@),
                e == move_view(m),
                pos <= out@.len(),
                forall|k: int| 0 <= k < pos ==> ranks_before(#[trigger] moves_view(out@)[k], e),
            decreases out@.len() - pos,
        {
            pos = pos + 1;
        }
        let ghost out_before = moves_view(out@);
        proof {
            if pos < out@.len() {
                assert(!ranks_before(out_before[pos as int], e));
            }
        }
        let ghost keys_before = keys@;
        let ghost outm_before = out@;
        keys.insert(pos, key);
        out.insert(pos, m);
        proof {
            assert(moves_view(out@) =~= out_before.insert(pos as int, e));
            let s = moves_view(out@);
            assert forall|a: int, b: int| 0 <= a < b < s.len() implies ranks_before(#[trigger] s[a], #[trigger] s[b]) by {
                if b < pos {
                    assert(s[a] == out_before[a] && s[b] == out_before[b]);
                } else if b == pos {
                    assert(s[a] == out_before[a]);
                } else if a == pos {
                    assert(s[b] == out_before[b - 1]);
                    lemma_ranks_total(e, out_before[pos as int]);
                    if b - 1 > pos {
                        assert(ranks_before(out_before[pos as int], out_before[b - 1]));
                        lemma_ranks_transitive(e, out_before[pos as int], out_before[b - 1]);
                    }
                } else if a < pos {
                    assert(s[a] == out_before[a] && s[b] == out_before[b - 1]);
                } else {
                    assert(s[a] == out_before[a - 1] && s[b] == out_before[b - 1]);
                }
            }
            assert forall|k: int| 0 <= k < out@.len() implies (#[trigger] keys@[k])@ == move_key(out@[k].tiles@) by {
                if k < pos {
                    assert(keys@[k] == keys_before[k] && out@[k] == outm_before[k]);
                } else if k > pos {
                    assert(keys@[k] == keys_before[k - 1] && out@[k] == outm_before[k - 1]);
                }
            }
            assert forall|mm: int, i: int|
                0 <= mm < rest@.len() && 0 <= i < rest@[mm].tiles@.len() implies (#[trigger] rest@[mm].tiles@[i]).coords.0 < 100
                    && rest@[mm].tiles@[i].coords.1 < 100 by {
                assert(rest@[mm] == rest_before[mm]);
            }
            assert(out_before.insert(pos as int, e).to_multiset() == out_before.to_multiset().insert(e));
            assert(moves_view(out@).to_multiset() == out_before.to_multiset().insert(e));
            assert(moves_view(rest@).push(e).to_multiset() == moves_view(rest@).to_multiset().insert(e));
            assert(moves_view(rest_before).to_multiset() == moves_view(rest@).to_multiset().insert(e));
            assert(moves_view(out@).to_multiset().add(moves_view(rest@).to_multiset()) =~= out_before.to_multiset().add(
                moves_view(rest_before).to_multiset(),
            )) by {
                broadcast use vstd::multiset::group_multiset_axioms;
            }
        }
    }
    proof {
        assert(moves_view(rest@) =~= Seq::<(Seq<TilePlacement>, nat)>::empty());
        assert(moves_view(out@).to_multiset().add(moves_view(rest@).to_multiset()) =~= moves_view(out@).to_multiset()) by {
            broadcast use vstd::multiset::group_multiset_axioms;
        }
    }
    out
}

/// Every tile of every move has row and column below 100.
pub open spec fn keys_bounded(s: Seq<(Seq<TilePlacement>, nat)>) -> bool {
    forall|i: int, j: int|
        0 <= i < s.len() && 0 <= j < s[i].0.len() ==> (#[trigger] s[i].0[j]).coords.0 < 100 && s[i].0[j].coords.1 < 100
}

/// The moves of `m` in the order of `ranks_before`.
pub open spec fn ranked(m: Multiset<(Seq<TilePlacement>, nat)>) -> Seq<(Seq<TilePlacement>, nat)> {
    choose|s: Seq<(Seq<TilePlacement>, nat)>| s.to_multiset() == m && moves_ranked(s) && keys_bounded(s)
}

proof fn lemma_two_digits_injective(a: int, b: int)
    requires
        0 <= a < 100,
        0 <= b < 100,
        two_digits(a) == two_digits(b),
    ensures
        a == b,
{
    assert(two_digits(a)[0] == two_digits(b)[0]);
    assert(two_digits(a)[1] == two_digits(b)[1]);
    assert(((48 + a / 10) as char) as int == 48 + a / 10);
    assert(((48 + b / 10) as char) as int == 48 + b / 10);
    assert(((48 + a % 10) as char) as int == 48 + a % 10);
    assert(((48 + b % 10) as char) as int == 48 + b % 10);
}

proof fn lemma_move_key_layout(t: Seq<TilePlacement>)
    ensures
        t.len() == 0 ==> move_key(t).len() == 0,
        t.len() > 0 ==> move_key(t).len() == 6 * t.len() - 1,
        forall|i: int, j: int| 0 <= i < t.len() && 0 <= j < 5 ==> move_key(t)[6 * i + j] == #[trigger] tile_key(t[i])[j],
    decreases t.len(),
{
    if t.len() > 1 {
        let u = t.drop_last();
        lemma_move_key_layout(u);
        assert forall|i: int, j: int| 0 <= i < t.len() && 0 <= j < 5 implies move_key(t)[6 * i + j] == #[trigger] tile_key(
            t[i],
        )[j] by {
            if i < t.len() - 1 {
                assert(u[i] == t[i]);
                assert(move_key(t)[6 * i + j] == move_key(u)[6 * i + j]);
            } else {
                assert(move_key(t)[6 * i + j] == tile_key(t.last())[j]);
            }
        }
    }
}

proof fn lemma_move_key_injective(a: Seq<TilePlacement>, b: Seq<TilePlacement>)
    requires
        forall|j: int| 0 <= j < a.len() ==> (#[trigger] a[j]).coords.0 < 100 && a[j].coords.1 < 100,
        forall|j: int| 0 <= j < b.len() ==> (#[trigger] b[j]).coords.0 < 100 && b[j].coords.1 < 100,
        move_key(a) == move_key(b),
    ensures
        a == b,
{
    lemma_move_key_layout(a);
    lemma_move_key_layout(b);
    assert(a.len() == b.len());
    assert forall|i: int| 0 <= i < a.len() implies a[i] == b[i] by {
        let ka = tile_key(a[i]);
        let kb = tile_key(b[i]);
        assert forall|j: int| 0 <= j < 5 implies ka[j] == kb[j] by {
            assert(move_key(a)[6 * i + j] == ka[j]);
            assert(move_key(b)[6 * i + j] == kb[j]);
        }
        assert(ka.subrange(0, 2) =~= two_digits(a[i].coords.0 as int));
        assert(kb.subrange(0, 2) =~= two_digits(b[i].coords.0 as int));
        assert(ka.subrange(2, 4) =~= two_digits(a[i].coords.1 as int));
        assert(kb.subrange(2, 4) =~= two_digits(b[i].coords.1 as int));
        assert(ka.subrange(0, 2) =~= kb.subrange(0, 2));
        assert(ka.subrange(2, 4) =~= kb.subrange(2, 4));
        lemma_two_digits_injective(a[i].coords.0 as int, b[i].coords.0 as int);
        lemma_two_digits_injective(a[i].coords.1 as int, b[i].coords.1 as int);
        assert(ka[4] == a[i].tile);
        assert(kb[4] == b[i].tile);
    }
    assert(a =~= b);
}

/// Two moves that rank before each other are the same move.
proof fn lemma_ranks_antisymmetric(a: (Seq<TilePlacement>, nat), b: (Seq<TilePlacement>, nat))
    requires
        ranks_before(a, b),
        ranks_before(b, a),
        forall|j: int| 0 <= j < a.0.len() ==> (#[trigger] a.0[j]).coords.0 < 100 && a.0[j].coords.1 < 100,
        forall|j: int| 0 <= j < b.0.len() ==> (#[trigger] b.0[j]).coords.0 < 100 && b.0[j].coords.1 < 100,
    ensures
        a == b,
{
    lemma_lex_total(move_key(a.0), move_key(b.0));
    lemma_move_key_injective(a.0, b.0);
}

/// Moves in ranked order are fixed by which moves they are: two ranked
/// sequences with the same moves are equal.
pub proof fn lemma_ranked_unique(s: Seq<(Seq<TilePlacement>, nat)>, t: Seq<(Seq<TilePlacement>, nat)>)
    requires
        moves_ranked(s),
        moves_ranked(t),
        keys_bounded(s),
        keys_bounded(t),
        s.to_multiset() == t.to_multiset(),
    ensures
        s == t,
    decreases s.len(),
{
    vstd::seq_lib::to_multiset_len(s);
    vstd::seq_lib::to_multiset_len(t);
    if s.len() > 0 {
        assert(s.contains(s[0]));
        assert(t.to_multiset().count(s[0]) > 0);
        assert(t.contains(s[0]));
        assert(s.to_multiset().count(t[0]) > 0);
        assert(s.contains(t[0]));
        let i = choose|i: int| 0 <= i < t.len() && t[i] == s[0];
        let j = choose|j: int| 0 <= j < s.len() && s[j] == t[0];
        if i > 0 {
            assert(ranks_before(t[0], t[i]));
        } else {
            lemma_ranks_total(t[0], t[0]);
        }
        if j > 0 {
            assert(ranks_before(s[0], s[j]));
        } else {
            lemma_ranks_total(s[0], s[0]);
        }
        assert forall|k: int| 0 <= k < s[0].0.len() implies (#[trigger] s[0].0[k]).coords.0 < 100 && s[0].0[k].coords.1 < 100 by {}
        assert forall|k: int| 0 <= k < t[0].0.len() implies (#[trigger] t[0].0[k]).coords.0 < 100 && t[0].0[k].coords.1 < 100 by {}
        lemma_ranks_antisymmetric(s[0], t[0]);
        assert(s.remove(0).to_multiset() == s.to_multiset().remove(s[0]));
        assert(t.remove(0).to_multiset() == t.to_multiset().remove(t[0]));
        assert(s.remove(0) =~= s.drop_first());
        assert(t.remove(0) =~= t.drop_first());
        let s1 = s.drop_first();
        let t1 = t.drop_first();
        assert forall|a: int, b: int| 0 <= a < b < s1.len() implies ranks_before(#[trigger] s1[a], #[trigger] s1[b]) by {
            assert(s1[a] == s[a + 1] && s1[b] == s[b + 1]);
        }
        assert forall|a: int, b: int| 0 <= a < b < t1.len() implies ranks_before(#[trigger] t1[a], #[trigger] t1[b]) by {
            assert(t1[a] == t[a + 1] && t1[b] == t[b + 1]);
        }
        assert forall|a: int, b: int| 0 <= a < s1.len() && 0 <= b < s1[a].0.len() implies (#[trigger] s1[a].0[b]).coords.0
            < 100 && s1[a].0[b].coords.1 < 100 by {
            assert(s1[a] == s[a + 1]);
        }
        assert forall|a: int, b: int| 0 <= a < t1.len() && 0 <= b < t1[a].0.len() implies (#[trigger] t1[a].0[b]).coords.0
            < 100 && t1[a].0[b].coords.1 < 100 by {
            assert(t1[a] == t[a + 1]);
        }
        lemma_ranked_unique(s1, t1);
        assert forall|k: int| 0 <= k < s.len() implies s[k] == t[k] by {
            if k > 0 {
                assert(s[k] == s1[k - 1]);
                assert(t[k] == t1[k - 1]);
            }
        }
        assert(s =~= t);
    }
}

/// A ranked sequence with row and column below 100 is the ranked order of its moves.
pub proof fn lemma_ranked_is(s: Seq<(Seq<TilePlacement>, nat)>)
    requires
        moves_ranked(s),
        keys_bounded(s),
    ensures
        ranked(s.to_multiset()) == s,
{
    let t = ranked(s.to_multiset());
    assert(s.to_multiset() == s.to_multiset() && moves_ranked(s) && keys_bounded(s));
    lemma_ranked_unique(t, s);
}

} // verus!
