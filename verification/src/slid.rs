//! What a line looks like after the slide: its tiles without gaps, pushed
//! together toward the front.

use vstd::prelude::*;
use crate::board::{layout_of, rank_of, Tiles};
use crate::calculate::{resolve_slice, Line};
use crate::grid_array::rotated;
use crate::quarter_turn::QuarterTurn;
use crate::seated::row_seated;
use crate::tile::{Tile, TileId};

verus! {

/// The tiles of a line from the front on, without the gaps.
pub open spec fn tiles_in_order(line: Line) -> Seq<TileId>
    decreases line.len(),
{
    if line.len() == 0 {
        Seq::empty()
    } else {
        match line[0] {
            Some(e) => seq![e] + tiles_in_order(line.drop_first()),
            None => tiles_in_order(line.drop_first()),
        }
    }
}

/// What comes of a row of tiles that is pushed together toward its front:
/// from the front on, two neighbours of the same rank become one tile of the
/// next rank, which is the front one of the two, and a tile that has come of
/// a merge does not merge again. Each tile is given with its rank afterwards.
pub open spec fn pushed_together(row: Seq<TileId>, tiles: Tiles) -> Seq<(TileId, Tile)>
    decreases row.len(),
{
    if row.len() == 0 {
        Seq::empty()
    } else if row.len() == 1 {
        seq![(row[0], rank_of(tiles, row[0]))]
    } else if rank_of(tiles, row[0]) == rank_of(tiles, row[1]) {
        seq![(row[0], Tile((rank_of(tiles, row[0]).0 + 1) as u8))] + pushed_together(
            row.skip(2),
            tiles,
        )
    } else {
        seq![(row[0], rank_of(tiles, row[0]))] + pushed_together(
            row.drop_first(),
            tiles,
        )
    }
}

/// The line after the slide: its tiles without gaps, pushed together.
pub open spec fn slid(line: Line, tiles: Tiles) -> Seq<(TileId, Tile)> {
    pushed_together(tiles_in_order(line), tiles)
}

/// `after` is `before` with every line, seen through `turn`, slid to its
/// front: each line holds from column 0 on the tiles that it held, without
/// gaps and pushed together, each with its rank, and nothing behind them.
pub open spec fn slid_through(before: Tiles, after: Tiles, turn: QuarterTurn) -> bool {
    forall|k: int|
        0 <= k < turn.spec_width() ==> row_seated(
            after,
            turn,
            k,
            0,
            slid(#[trigger] rotated(layout_of(before), turn)[k], before),
        )
}

/// A gap at the front of a line leaves no trace in the line after the slide.
pub proof fn lemma_slid_gap_in_front(line: Line, tiles: Tiles)
    requires
        line.len() > 0,
        line[0] is None,
    ensures
        slid(line, tiles) == slid(line.drop_first(), tiles),
{
}

/// A gap behind the front tile leaves no trace in the line after the slide.
pub proof fn lemma_slid_gap_behind_tile(line: Line, tiles: Tiles)
    requires
        line.len() > 1,
        line[0] is Some,
        line[1] is None,
    ensures
        slid(line, tiles) == slid(seq![line[0]] + line.skip(2), tiles),
{
    let rest = line.skip(2);
    let next = seq![line[0]] + rest;
    assert(line.drop_first()[0] == line[1]);
    assert(line.drop_first().drop_first() =~= rest);
    assert(next.drop_first() =~= rest);
    assert(tiles_in_order(line.drop_first()) == tiles_in_order(rest));
    assert(tiles_in_order(line) == seq![line[0].unwrap()] + tiles_in_order(rest));
    assert(tiles_in_order(next) == seq![line[0].unwrap()] + tiles_in_order(rest));
}

/// A single tile slides as itself.
pub proof fn lemma_slid_single(line: Line, tiles: Tiles)
    requires
        line.len() == 1,
        line[0] is Some,
    ensures
        slid(line, tiles) == seq![(line[0].unwrap(), rank_of(tiles, line[0].unwrap()))],
{
    assert(line.drop_first().len() == 0);
    assert(tiles_in_order(line.drop_first()) =~= Seq::<TileId>::empty());
    let row = tiles_in_order(line);
    assert(row =~= seq![line[0].unwrap()]);
    assert(row.len() == 1);
    assert(row[0] == line[0].unwrap());
}

/// Two tiles at the front of a line: after the slide the line begins with the
/// front tile, one rank higher if the two had the same rank, and goes on
/// with what comes of the rest, which begins behind the second tile if the
/// two have merged and with the second tile otherwise.
pub proof fn lemma_slid_two_tiles(line: Line, tiles: Tiles)
    requires
        line.len() > 1,
        line[0] is Some,
        line[1] is Some,
    ensures
        ({
            let front = rank_of(tiles, line[0].unwrap());
            let second = rank_of(tiles, line[1].unwrap());
            slid(line, tiles) == if front == second {
                seq![(line[0].unwrap(), Tile((front.0 + 1) as u8))] + slid(line.skip(2), tiles)
            } else {
                seq![(line[0].unwrap(), front)] + slid(line.drop_first(), tiles)
            }
        }),
{
    let e0 = line[0].unwrap();
    let e1 = line[1].unwrap();
    let rest = line.skip(2);
    let after_front = line.drop_first();
    let row = tiles_in_order(line);
    assert(after_front[0] == line[1]);
    assert(after_front.drop_first() =~= rest);
    assert(tiles_in_order(after_front) == seq![e1] + tiles_in_order(rest));
    assert(row == seq![e0] + tiles_in_order(after_front));
    assert(row.len() >= 2);
    assert(row[0] == e0 && row[1] == e1);
    assert(row.skip(2) =~= tiles_in_order(rest));
    assert(row.drop_first() =~= tiles_in_order(after_front));
}

/// A line has no more tiles than cells.
pub proof fn lemma_tiles_in_order_len(line: Line)
    ensures
        tiles_in_order(line).len() <= line.len(),
    decreases line.len(),
{
    if line.len() > 0 {
        lemma_tiles_in_order_len(line.drop_first());
    }
}

/// A row pushed together is no longer than the row.
pub proof fn lemma_pushed_together_len(row: Seq<TileId>, tiles: Tiles)
    ensures
        pushed_together(row, tiles).len() <= row.len(),
    decreases row.len(),
{
    if row.len() >= 2 {
        lemma_pushed_together_len(row.skip(2), tiles);
        lemma_pushed_together_len(row.drop_first(), tiles);
    }
}

/// A line whose tiles step or merge does not fill all its cells afterwards.
pub proof fn lemma_events_shorten_line(line: Line, tiles: Tiles, turn: QuarterTurn)
    ensures
        slid(line, tiles).len() <= line.len(),
        resolve_slice(line, tiles, turn) matches Ok(events) ==> events.len() > 0 ==> slid(
            line,
            tiles,
        ).len() < line.len(),
    decreases line.len(),
{
    lemma_tiles_in_order_len(line);
    lemma_pushed_together_len(tiles_in_order(line), tiles);
    if resolve_slice(line, tiles, turn) is Err || line.len() == 0 {
    } else if line[0] is None {
        lemma_slid_gap_in_front(line, tiles);
        lemma_events_shorten_line(line.drop_first(), tiles, turn);
    } else if line.len() == 1 {
    } else if line[1] is None {
        lemma_slid_gap_behind_tile(line, tiles);
        lemma_events_shorten_line(seq![line[0]] + line.skip(2), tiles, turn);
    } else {
        lemma_slid_two_tiles(line, tiles);
        lemma_events_shorten_line(line.skip(2), tiles, turn);
        lemma_events_shorten_line(line.drop_first(), tiles, turn);
    }
}

/// Every tile of `tiles_in_order` stands in the line.
pub proof fn lemma_tiles_in_order_from_line(line: Line)
    ensures
        forall|n: int|
            0 <= n < tiles_in_order(line).len() ==> line.contains(
                Some(#[trigger] tiles_in_order(line)[n]),
            ),
    decreases line.len(),
{
    if line.len() > 0 {
        let rest = line.drop_first();
        lemma_tiles_in_order_from_line(rest);
        let row = tiles_in_order(line);
        assert forall|n: int| 0 <= n < row.len() implies line.contains(Some(#[trigger] row[n])) by {
            if line[0] is Some && n == 0 {
                assert(line[0] == Some(row[0]));
            } else {
                let b = if line[0] is Some {
                    n - 1
                } else {
                    n
                };
                assert(row[n] == tiles_in_order(rest)[b]);
                assert(rest.contains(Some(row[n])));
                let j = choose|j: int| 0 <= j < rest.len() && rest[j] == Some(row[n]);
                assert(line[j + 1] == Some(row[n]));
            }
        }
    }
}

/// Every tile that comes of a row pushed together is a tile of the row.
pub proof fn lemma_pushed_together_from_row(row: Seq<TileId>, tiles: Tiles)
    ensures
        forall|m: int|
            0 <= m < pushed_together(row, tiles).len() ==> row.contains(
                (#[trigger] pushed_together(row, tiles)[m]).0,
            ),
    decreases row.len(),
{
    let all = pushed_together(row, tiles);
    if row.len() == 0 {
    } else if row.len() == 1 {
        assert forall|m: int| 0 <= m < all.len() implies row.contains((#[trigger] all[m]).0) by {
            assert(row[0] == all[m].0);
        }
    } else {
        let merged = rank_of(tiles, row[0]) == rank_of(tiles, row[1]);
        let rest = if merged {
            row.skip(2)
        } else {
            row.drop_first()
        };
        lemma_pushed_together_from_row(rest, tiles);
        let behind = pushed_together(rest, tiles);
        assert forall|m: int| 0 <= m < all.len() implies row.contains((#[trigger] all[m]).0) by {
            if m == 0 {
                assert(row[0] == all[m].0);
            } else {
                assert(all[m] == behind[m - 1]);
                assert(rest.contains(behind[m - 1].0));
                let j = choose|j: int| 0 <= j < rest.len() && rest[j] == behind[m - 1].0;
                if merged {
                    assert(row[j + 2] == all[m].0);
                } else {
                    assert(row[j + 1] == all[m].0);
                }
            }
        }
    }
}

/// Every tile of a line after the slide was a tile of the line.
pub proof fn lemma_slid_from_line(line: Line, tiles: Tiles)
    ensures
        forall|m: int|
            0 <= m < slid(line, tiles).len() ==> line.contains(
                Some((#[trigger] slid(line, tiles)[m]).0),
            ),
{
    lemma_tiles_in_order_from_line(line);
    lemma_pushed_together_from_row(tiles_in_order(line), tiles);
    let row = tiles_in_order(line);
    let all = slid(line, tiles);
    assert forall|m: int| 0 <= m < all.len() implies line.contains(Some((#[trigger] all[m]).0)) by {
        assert(row.contains(all[m].0));
        let n = choose|n: int| 0 <= n < row.len() && row[n] == all[m].0;
        assert(line.contains(Some(row[n])));
    }
}

} // verus!
