//! Which rows the tables of a report show.

use vstd::prelude::*;

verus! {

/// Rows of the ranking that are shown unless all are asked for.
pub const TOP_ROWS: usize = 20;

/// Ranks that are marked with a star.
pub const STARRED_RANKS: usize = 10;

/// Rows of the table of worst regions.
pub const WORST_ROWS: usize = 5;

/// Rows of the table of blocks.
pub const BLOCK_ROWS: usize = 10;

/// Mebibytes from which on a block is useful.
pub const USEFUL_MB: usize = 256;

/// A row of a table.
#[derive(Debug, Clone, Copy)]
pub struct Row {
    /// Rank, counted from 1.
    pub rank: usize,
    /// Position of what the row is about.
    pub index: usize,
    pub starred: bool,
}

/// The smaller of two numbers.
pub open spec fn at_most(a: int, b: int) -> int {
    if a < b {
        a
    } else {
        b
    }
}

/// How many of `total` rows the ranking shows.
pub open spec fn shown(verbose: bool, total: nat) -> int {
    if verbose {
        total as int
    } else {
        at_most(TOP_ROWS as int, total as int)
    }
}

/// The row at place `i` of a table of `items`.
pub open spec fn row(items: Seq<usize>, i: int, starred: bool) -> Row {
    Row { rank: (i + 1) as usize, index: items[i], starred }
}

/// The table of the ranking.
pub open spec fn ranking_table(ranking: Seq<usize>, verbose: bool) -> Seq<Row> {
    Seq::new(
        shown(verbose, ranking.len()) as nat,
        |i: int| row(ranking, i, i < STARRED_RANKS),
    )
}

/// The table of the worst regions.
pub open spec fn worst_table(ranking: Seq<usize>) -> Seq<Row> {
    Seq::new(
        at_most(WORST_ROWS as int, ranking.len() as int) as nat,
        |i: int| row(ranking, ranking.len() - 1 - i, false),
    )
}

/// The table of the useful blocks.
pub open spec fn block_table(positions: Seq<usize>) -> Seq<Row> {
    Seq::new(
        at_most(BLOCK_ROWS as int, positions.len() as int) as nat,
        |i: int| row(positions, i, i == 0),
    )
}

/// The regions that the ranking leaves out, counted.
pub open spec fn hidden(total: nat, verbose: bool) -> int {
    total - shown(verbose, total)
}

/// The first `len` of `items`, the first `stars` of them marked.
fn leading_rows(items: &Vec<usize>, len: usize, stars: usize) -> (rows: Vec<Row>)
    requires
        len <= items@.len(),
    ensures
        rows@.len() == len,
        forall|i: int|
            0 <= i < len ==> #[trigger] rows@[i] == (Row {
                rank: (i + 1) as usize,
                index: items@[i],
                starred: i < stars,
            }),
{
    let mut rows: Vec<Row> = Vec::new();
    let mut i: usize = 0;
    while i < len
        invariant
            i <= len <= items@.len(),
            rows@.len() == i,
            forall|k: int|
                0 <= k < i ==> #[trigger] rows@[k] == (Row {
                    rank: (k + 1) as usize,
                    index: items@[k],
                    starred: k < stars,
                }),
        decreases len - i,
    {
        rows.push(Row { rank: i + 1, index: items[i], starred: i < stars });
        i = i + 1;
    }
    rows
}

/// The rows of the ranking: the best regions, or all of them.
pub fn top_rows(ranking: &Vec<usize>, verbose: bool) -> (rows: Vec<Row>)
    ensures
        rows@ == ranking_table(ranking@, verbose),
        rows@.len() == shown(verbose, ranking@.len()),
        forall|i: int|
            0 <= i < rows@.len() ==> #[trigger] rows@[i] == (Row {
                rank: (i + 1) as usize,
                index: ranking@[i],
                starred: i < STARRED_RANKS,
            }),
{
    let len: usize = if verbose || ranking.len() < TOP_ROWS {
        ranking.len()
    } else {
        TOP_ROWS
    };
    leading_rows(ranking, len, STARRED_RANKS)
}

/// How many regions the ranking leaves out.
pub fn hidden_rows(total: usize, verbose: bool) -> (hidden: usize)
    ensures
        hidden == self::hidden(total as nat, verbose),
        hidden + shown(verbose, total as nat) == total,
{
    if !verbose && total > TOP_ROWS {
        total - TOP_ROWS
    } else {
        0
    }
}

/// The rows of the worst regions, the very worst first.
pub fn worst_rows(ranking: &Vec<usize>) -> (rows: Vec<Row>)
    ensures
        rows@ == worst_table(ranking@),
        rows@.len() == at_most(WORST_ROWS as int, ranking@.len() as int),
        forall|i: int|
            0 <= i < rows@.len() ==> #[trigger] rows@[i] == (Row {
                rank: (ranking@.len() - i) as usize,
                index: ranking@[ranking@.len() - 1 - i],
                starred: false,
            }),
{
    let total: usize = ranking.len();
    let len: usize = if total < WORST_ROWS {
        total
    } else {
        WORST_ROWS
    };
    let mut rows: Vec<Row> = Vec::new();
    let mut i: usize = 0;
    while i < len
        invariant
            total == ranking@.len(),
            i <= len <= total,
            rows@.len() == i,
            forall|k: int|
                0 <= k < i ==> #[trigger] rows@[k] == (Row {
                    rank: (total - k) as usize,
                    index: ranking@[total - 1 - k],
                    starred: false,
                }),
        decreases len - i,
    {
        rows.push(Row { rank: total - i, index: ranking[total - 1 - i], starred: false });
        i = i + 1;
    }
    rows
}

/// Whether the size at a position is useful.
pub open spec fn is_useful(sizes: Seq<usize>) -> spec_fn(int) -> bool {
    |i: int| sizes[i] >= USEFUL_MB
}

/// The blocks, given by their sizes, that are large enough to be useful, in
/// order. The first of them is the one to place a model in.
pub fn useful_blocks(sizes: &[usize]) -> (positions: Vec<usize>)
    ensures
        positions@ == crate::select::positions_where(is_useful(sizes@), sizes@.len() as int),
{
    let mut positions: Vec<usize> = Vec::new();
    let mut i: usize = 0;
    while i < sizes.len()
        invariant
            i <= sizes@.len(),
            positions@ == crate::select::positions_where(is_useful(sizes@), i as int),
        decreases sizes@.len() - i,
    {
        if sizes[i] >= USEFUL_MB {
            positions.push(i);
        }
        i = i + 1;
    }
    positions
}

/// The rows of the useful blocks; only the first is marked.
pub fn block_rows(positions: &Vec<usize>) -> (rows: Vec<Row>)
    ensures
        rows@ == block_table(positions@),
        rows@.len() == at_most(BLOCK_ROWS as int, positions@.len() as int),
        forall|i: int|
            0 <= i < rows@.len() ==> #[trigger] rows@[i] == (Row {
                rank: (i + 1) as usize,
                index: positions@[i],
                starred: i == 0,
            }),
{
    let len: usize = if positions.len() < BLOCK_ROWS {
        positions.len()
    } else {
        BLOCK_ROWS
    };
    leading_rows(positions, len, 1)
}

/// The ranking shows the best region first, twenty of them or all that there
/// are, and all where they are asked for. The rows number the ranks from 1, and
/// the ten best are marked.
pub proof fn ranking_table_exact(ranking: Seq<usize>, verbose: bool)
    requires
        ranking.len() <= usize::MAX,
    ensures
        ({
            let rows = ranking_table(ranking, verbose);
            &&& rows.len() <= ranking.len()
            &&& verbose || ranking.len() <= 20 ==> rows.len() == ranking.len()
            &&& !verbose && ranking.len() >= 20 ==> rows.len() == 20
            &&& forall|i: int|
                0 <= i < rows.len() ==> {
                    &&& (#[trigger] rows[i]).rank == i + 1
                    &&& rows[i].index == ranking[i]
                    &&& rows[i].starred <==> rows[i].rank <= 10
                }
        }),
{
}

/// What is hidden is what the ranking has no row for: nothing where all regions
/// are asked for, and otherwise all but twenty.
pub proof fn hidden_exact(ranking: Seq<usize>, verbose: bool)
    requires
        ranking.len() <= usize::MAX,
    ensures
        hidden(ranking.len(), verbose) + ranking_table(ranking, verbose).len() == ranking.len(),
        hidden(ranking.len(), verbose) > 0 <==> !verbose && ranking.len() > 20,
        hidden(ranking.len(), verbose) > 0 ==> hidden(ranking.len(), verbose) == ranking.len() - 20,
{
}

/// The worst regions are the last five of the ranking, or all that there are,
/// the last one first; each row names the rank that its region has there.
pub proof fn worst_table_exact(ranking: Seq<usize>)
    requires
        ranking.len() <= usize::MAX,
    ensures
        ({
            let rows = worst_table(ranking);
            &&& ranking.len() >= 5 ==> rows.len() == 5
            &&& ranking.len() <= 5 ==> rows.len() == ranking.len()
            &&& forall|i: int|
                0 <= i < rows.len() ==> {
                    &&& (#[trigger] rows[i]).rank == ranking.len() - i
                    &&& rows[i].index == ranking[rows[i].rank - 1]
                    &&& !rows[i].starred
                }
        }),
{
}

/// The table of blocks shows the first ten, or all that there are, in their
/// order, numbered from 1, and marks the first alone.
pub proof fn block_table_exact(positions: Seq<usize>)
    requires
        positions.len() <= usize::MAX,
    ensures
        ({
            let rows = block_table(positions);
            &&& positions.len() >= 10 ==> rows.len() == 10
            &&& positions.len() <= 10 ==> rows.len() == positions.len()
            &&& forall|i: int|
                0 <= i < rows.len() ==> {
                    &&& (#[trigger] rows[i]).rank == i + 1
                    &&& rows[i].index == positions[i]
                    &&& rows[i].starred <==> rows[i].rank == 1
                }
        }),
{
}

/// A block is useful exactly if it has 256 mebibytes or more; useful blocks are
/// listed in their order.
pub proof fn useful_exact(sizes: Seq<usize>)
    requires
        sizes.len() <= usize::MAX,
    ensures
        ({
            let positions = crate::select::positions_where(is_useful(sizes), sizes.len() as int);
            &&& forall|i: int|
                0 <= i < sizes.len() ==> (#[trigger] positions.contains(i as usize) <==> sizes[i]
                    >= 256)
            &&& forall|a: int| 0 <= a < positions.len() ==> #[trigger] positions[a] < sizes.len()
            &&& forall|a: int, b: int|
                0 <= a < b < positions.len() ==> #[trigger] positions[a] < #[trigger] positions[b]
        }),
{
    crate::select::selection_exact(is_useful(sizes), sizes.len() as int);
    let positions = crate::select::positions_where(is_useful(sizes), sizes.len() as int);
    assert forall|i: int| 0 <= i < sizes.len() implies (#[trigger] positions.contains(i as usize)
        <==> sizes[i] >= 256) by {
        assert(is_useful(sizes)(i) == (sizes[i] >= USEFUL_MB));
    }
}

} // verus!
