//! Geometry-independent exact sparse contraction oracle for small boards.
//!
//! This module contracts explicit local C factors in a requested site order.
//! It is intentionally generic and slow; its purpose is to compare actual
//! frontier support without baking the row-transfer recurrence into the code.
use vstd::prelude::*;

use crate::boundary::PackedBoundary;
use crate::contract::{keys_strictly_sorted, reduce_sorted_candidates, sort_by_packed_key};
use crate::transfer::{
    indicator, lemma_indicator_le_total, lemma_weighted_sum_permutation, unit_key, weighted_sum,
};
use crate::tensor::{CEntry, SiteTensorC, sec_vi_c};
use crate::util::{elapsed, message, now, peak_rss_bytes, zero_duration};
use std::time::Duration;
use vstd::arithmetic::div_mod::{
    lemma_fundamental_div_mod_converse_div, lemma_fundamental_div_mod_converse_mod,
};

verus! {

/// The largest board that the oracle contracts.
pub const MAX_ORACLE_N: usize = 6;

/// Order in which the sites of the board are contracted.
#[derive(Clone, Copy, Debug, PartialEq, Eq, Structural)]
pub enum SiteOrdering {
    RowMajor,
    Snake,
    DiagonalWavefront,
}

/// The name of an ordering in reports.
pub open spec fn ordering_text(ordering: SiteOrdering) -> Seq<char> {
    match ordering {
        SiteOrdering::RowMajor => "row_major"@,
        SiteOrdering::Snake => "snake"@,
        SiteOrdering::DiagonalWavefront => "diagonal_wavefront"@,
    }
}

impl SiteOrdering {
    pub fn name(self) -> (text: &'static str)
        ensures
            text@ == ordering_text(self),
    {
        match self {
            SiteOrdering::RowMajor => "row_major",
            SiteOrdering::Snake => "snake",
            SiteOrdering::DiagonalWavefront => "diagonal_wavefront",
        }
    }
}

/// A site of the board of side `n`.
pub open spec fn on_board(n: nat, site: (usize, usize)) -> bool {
    site.0 < n && site.1 < n
}

/// The sites in row-major order.
pub open spec fn row_major_sites(n: nat) -> Seq<(usize, usize)> {
    Seq::new(n * n, |i: int| ((i / (n as int)) as usize, (i % (n as int)) as usize))
}

/// The site at position `i` of the snake order: even rows run left to right,
/// odd rows right to left.
pub open spec fn snake_site(n: nat, i: int) -> (usize, usize) {
    let row = i / (n as int);
    let offset = i % (n as int);
    (row as usize, if row % 2 == 0 {
        offset as usize
    } else {
        (n - 1 - offset) as usize
    })
}

/// The position of a site in the wavefront order: anti-diagonal first, then
/// row.
pub open spec fn wave_key(n: nat, site: (usize, usize)) -> int {
    (site.0 + site.1) * n + site.0
}

/// `sites` visits every site of the board exactly once.
pub open spec fn is_site_permutation(n: nat, sites: Seq<(usize, usize)>) -> bool {
    &&& sites.len() == n * n
    &&& sites.no_duplicates()
    &&& forall|i: int| 0 <= i < sites.len() ==> on_board(n, #[trigger] sites[i])
    &&& forall|r: usize, c: usize| r < n && c < n ==> #[trigger] sites.contains((r, c))
}

/// The order of the requested kind.
pub open spec fn ordering_shape(n: nat, ordering: SiteOrdering, sites: Seq<(usize, usize)>) -> bool {
    match ordering {
        SiteOrdering::RowMajor => sites == row_major_sites(n),
        SiteOrdering::Snake => forall|i: int| 0 <= i < sites.len() ==> #[trigger] sites[i] == snake_site(n, i),
        SiteOrdering::DiagonalWavefront => forall|i: int, j: int|
            0 <= i < j < sites.len() ==> wave_key(n, #[trigger] sites[i]) < wave_key(n, #[trigger] sites[j]),
    }
}

proof fn lemma_div_mod(x: int, d: int, q: int, r: int)
    requires
        d > 0,
        0 <= r < d,
        x == q * d + r,
    ensures
        x / d == q,
        x % d == r,
{
    lemma_fundamental_div_mod_converse_div(x, d, q, r);
    lemma_fundamental_div_mod_converse_mod(x, d, q, r);
}

/// A duplicate-free sequence of board sites that holds every site has one
/// entry per site.
proof fn lemma_site_count(n: nat, sites: Seq<(usize, usize)>)
    requires
        sites.no_duplicates(),
        forall|i: int| 0 <= i < sites.len() ==> on_board(n, #[trigger] sites[i]),
        forall|r: usize, c: usize| r < n && c < n ==> #[trigger] sites.contains((r, c)),
        n * n <= usize::MAX,
    ensures
        sites.len() == n * n,
{
    let grid = row_major_sites(n);
    if n == 0 {
        if sites.len() > 0 {
            assert(on_board(n, sites[0]));
        }
        return;
    }
    assert forall|i: int, j: int| 0 <= i < j < grid.len() implies grid[i] != grid[j] by {
        assert(0 <= i / (n as int)) by (nonlinear_arith) requires i >= 0, n > 0;
        assert(0 <= j / (n as int)) by (nonlinear_arith) requires j >= 0, n > 0;
        assert(i / (n as int) <= j / (n as int)) by (nonlinear_arith) requires i <= j, n > 0;
        assert((i / (n as int)) * n + (i % (n as int)) == i) by (nonlinear_arith) requires n > 0;
        assert((j / (n as int)) * n + (j % (n as int)) == j) by (nonlinear_arith) requires n > 0;
        assert(i / (n as int) < n) by (nonlinear_arith) requires i < n * n, i >= 0, n > 0;
        assert(j / (n as int) < n) by (nonlinear_arith) requires j < n * n, j >= 0, n > 0;
    }
    assert(grid.no_duplicates());
    assert forall|x: (usize, usize)| sites.to_set().contains(x) implies grid.to_set().contains(x) by {
        let i = choose|i: int| 0 <= i < sites.len() && sites[i] == x;
        assert(on_board(n, sites[i]));
        let k = x.0 * n + x.1;
        assert(0 <= k < n * n) by (nonlinear_arith) requires x.0 < n, x.1 < n, k == x.0 * n + x.1;
        lemma_div_mod(k, n as int, x.0 as int, x.1 as int);
        assert(grid[k] == x);
    }
    assert forall|x: (usize, usize)| grid.to_set().contains(x) implies sites.to_set().contains(x) by {
        let i = choose|i: int| 0 <= i < grid.len() && grid[i] == x;
        assert(i / (n as int) < n) by (nonlinear_arith) requires i < n * n, i >= 0, n > 0;
        assert(0 <= i / (n as int)) by (nonlinear_arith) requires i >= 0, n > 0;
        assert(sites.contains((x.0, x.1)));
    }
    assert(sites.to_set() =~= grid.to_set());
    sites.unique_seq_to_set();
    grid.unique_seq_to_set();
}

/// Every site of the board, each exactly once, in the requested order.
pub fn ordered_sites(n: usize, ordering: SiteOrdering) -> (sites: Vec<(usize, usize)>)
    requires
        n <= 0xffff,
    ensures
        is_site_permutation(n as nat, sites@),
        ordering_shape(n as nat, ordering, sites@),
{
    match ordering {
        SiteOrdering::RowMajor => row_major_order(n),
        SiteOrdering::Snake => snake_order(n),
        SiteOrdering::DiagonalWavefront => wavefront_order(n),
    }
}

fn row_major_order(n: usize) -> (sites: Vec<(usize, usize)>)
    requires
        n <= 0xffff,
    ensures
        is_site_permutation(n as nat, sites@),
        sites@ == row_major_sites(n as nat),
{
    let mut sites: Vec<(usize, usize)> = Vec::new();
    let mut row: usize = 0;
    while row < n
        invariant
            n <= 0xffff,
            row <= n,
            sites@.len() == row * n,
            forall|i: int| 0 <= i < sites@.len() ==> #[trigger] sites@[i] == row_major_sites(n as nat)[i],
        decreases n - row,
    {
        let mut column: usize = 0;
        while column < n
            invariant
                n <= 0xffff,
                row < n,
                column <= n,
                sites@.len() == row * n + column,
                forall|i: int| 0 <= i < sites@.len() ==> #[trigger] sites@[i] == row_major_sites(n as nat)[i],
            decreases n - column,
        {
            proof {
                let k = row * n + column;
                assert(k < n * n) by (nonlinear_arith) requires row < n, column < n, k == row * n + column;
                lemma_div_mod(k, n as int, row as int, column as int);
            }
            sites.push((row, column));
            column = column + 1;
        }
        assert((row + 1) * n == row * n + n) by (nonlinear_arith);
        row = row + 1;
    }
    proof {
        assert(sites@ =~= row_major_sites(n as nat));
        lemma_row_major_permutation(n as nat);
    }
    sites
}

proof fn lemma_row_major_permutation(n: nat)
    requires
        n <= 0xffff,
    ensures
        is_site_permutation(n, row_major_sites(n)),
{
    let grid = row_major_sites(n);
    if n == 0 {
        return;
    }
    assert forall|i: int| 0 <= i < grid.len() implies on_board(n, #[trigger] grid[i]) by {
        assert(i / (n as int) < n) by (nonlinear_arith) requires i < n * n, i >= 0, n > 0;
        assert(0 <= i / (n as int)) by (nonlinear_arith) requires i >= 0, n > 0;
    }
    assert forall|i: int, j: int| 0 <= i < j < grid.len() implies grid[i] != grid[j] by {
        assert(0 <= i / (n as int)) by (nonlinear_arith) requires i >= 0, n > 0;
        assert(i / (n as int) < n) by (nonlinear_arith) requires i < n * n, i >= 0, n > 0;
        assert(j / (n as int) < n) by (nonlinear_arith) requires j < n * n, j >= 0, n > 0;
        assert((i / (n as int)) * n + (i % (n as int)) == i) by (nonlinear_arith) requires n > 0;
        assert((j / (n as int)) * n + (j % (n as int)) == j) by (nonlinear_arith) requires n > 0;
    }
    assert forall|r: usize, c: usize| r < n && c < n implies #[trigger] grid.contains((r, c)) by {
        let k = r * n + c;
        assert(0 <= k < n * n) by (nonlinear_arith) requires r < n, c < n, k == r * n + c;
        lemma_div_mod(k, n as int, r as int, c as int);
        assert(grid[k] == (r, c));
    }
}


fn snake_order(n: usize) -> (sites: Vec<(usize, usize)>)
    requires
        n <= 0xffff,
    ensures
        is_site_permutation(n as nat, sites@),
        forall|i: int| 0 <= i < sites@.len() ==> #[trigger] sites@[i] == snake_site(n as nat, i),
{
    let mut sites: Vec<(usize, usize)> = Vec::new();
    let mut row: usize = 0;
    while row < n
        invariant
            n <= 0xffff,
            row <= n,
            sites@.len() == row * n,
            forall|i: int| 0 <= i < sites@.len() ==> #[trigger] sites@[i] == snake_site(n as nat, i),
        decreases n - row,
    {
        let mut step: usize = 0;
        while step < n
            invariant
                n <= 0xffff,
                row < n,
                step <= n,
                sites@.len() == row * n + step,
                forall|i: int| 0 <= i < sites@.len() ==> #[trigger] sites@[i] == snake_site(n as nat, i),
            decreases n - step,
        {
            let column = if row % 2 == 0 {
                step
            } else {
                n - 1 - step
            };
            proof {
                let k = row * n + step;
                lemma_div_mod(k, n as int, row as int, step as int);
            }
            sites.push((row, column));
            step = step + 1;
        }
        assert((row + 1) * n == row * n + n) by (nonlinear_arith);
        row = row + 1;
    }
    proof {
        lemma_snake_permutation(n as nat, sites@);
    }
    sites
}

proof fn lemma_snake_permutation(n: nat, sites: Seq<(usize, usize)>)
    requires
        n <= 0xffff,
        sites.len() == n * n,
        forall|i: int| 0 <= i < sites.len() ==> #[trigger] sites[i] == snake_site(n, i),
    ensures
        is_site_permutation(n, sites),
{
    if n == 0 {
        return;
    }
    assert forall|i: int| 0 <= i < sites.len() implies on_board(n, #[trigger] sites[i]) by {
        assert(i / (n as int) < n) by (nonlinear_arith) requires i < n * n, i >= 0, n > 0;
        assert(0 <= i / (n as int)) by (nonlinear_arith) requires i >= 0, n > 0;
    }
    assert forall|i: int, j: int| 0 <= i < j < sites.len() implies sites[i] != sites[j] by {
        assert(0 <= i / (n as int)) by (nonlinear_arith) requires i >= 0, n > 0;
        assert(i / (n as int) < n) by (nonlinear_arith) requires i < n * n, i >= 0, n > 0;
        assert(j / (n as int) < n) by (nonlinear_arith) requires j < n * n, j >= 0, n > 0;
        assert((i / (n as int)) * n + (i % (n as int)) == i) by (nonlinear_arith) requires n > 0;
        assert((j / (n as int)) * n + (j % (n as int)) == j) by (nonlinear_arith) requires n > 0;
        assert(sites[i] == snake_site(n, i));
        assert(sites[j] == snake_site(n, j));
    }
    assert forall|r: usize, c: usize| r < n && c < n implies #[trigger] sites.contains((r, c)) by {
        let offset: int = if r % 2 == 0 { c as int } else { n - 1 - c };
        let k = r * n + offset;
        assert(0 <= k < n * n) by (nonlinear_arith) requires r < n, 0 <= offset < n, k == r * n + offset;
        lemma_div_mod(k, n as int, r as int, offset);
        assert(sites[k] == snake_site(n, k));
        assert(sites[k] == (r, c));
    }
}

/// The sites before row `row` of anti-diagonal `diagonal` in wavefront order.
pub open spec fn wave_before(site: (usize, usize), diagonal: int, row: int) -> bool {
    site.0 + site.1 < diagonal || (site.0 + site.1 == diagonal && site.0 < row)
}

fn wavefront_order(n: usize) -> (sites: Vec<(usize, usize)>)
    requires
        n <= 0xffff,
    ensures
        is_site_permutation(n as nat, sites@),
        forall|i: int, j: int|
            0 <= i < j < sites@.len() ==> wave_key(n as nat, #[trigger] sites@[i]) < wave_key(
                n as nat,
                #[trigger] sites@[j],
            ),
{
    broadcast use vstd::seq_lib::group_seq_properties;

    let mut sites: Vec<(usize, usize)> = Vec::new();
    let last = if n == 0 {
        0
    } else {
        2 * (n - 1)
    };
    let mut diagonal: usize = 0;
    while diagonal <= last
        invariant
            n <= 0xffff,
            last == if n == 0 { 0 } else { 2 * (n - 1) },
            diagonal <= last + 1,
            forall|i: int| 0 <= i < sites@.len() ==> on_board(n as nat, #[trigger] sites@[i]),
            forall|i: int| 0 <= i < sites@.len() ==> wave_before(#[trigger] sites@[i], diagonal as int, 0),
            forall|i: int, j: int|
                0 <= i < j < sites@.len() ==> wave_key(n as nat, #[trigger] sites@[i]) < wave_key(
                    n as nat,
                    #[trigger] sites@[j],
                ),
            forall|r: usize, c: usize|
                r < n && c < n && wave_before((r, c), diagonal as int, 0) ==> #[trigger] sites@.contains((r, c)),
        decreases last + 1 - diagonal,
    {
        let mut row: usize = 0;
        while row < n
            invariant
                n <= 0xffff,
                diagonal <= last,
                last == if n == 0 { 0 } else { 2 * (n - 1) },
                row <= n,
                forall|i: int| 0 <= i < sites@.len() ==> on_board(n as nat, #[trigger] sites@[i]),
                forall|i: int| 0 <= i < sites@.len() ==> wave_before(#[trigger] sites@[i], diagonal as int, row as int),
                forall|i: int, j: int|
                    0 <= i < j < sites@.len() ==> wave_key(n as nat, #[trigger] sites@[i]) < wave_key(
                        n as nat,
                        #[trigger] sites@[j],
                    ),
                forall|r: usize, c: usize|
                    r < n && c < n && wave_before((r, c), diagonal as int, row as int) ==> #[trigger] sites@.contains((r, c)),
            decreases n - row,
        {
            let ghost before = sites@;
            if diagonal >= row && diagonal - row < n {
                let site = (row, diagonal - row);
                proof {
                    assert forall|i: int| 0 <= i < sites@.len() implies wave_key(n as nat, #[trigger] sites@[i]) < wave_key(n as nat, site) by {
                        let s = sites@[i];
                        assert(on_board(n as nat, s));
                        assert(wave_before(s, diagonal as int, row as int));
                        if s.0 + s.1 < diagonal {
                            assert((s.0 + s.1) * n + s.0 < diagonal * n + row) by (nonlinear_arith)
                                requires s.0 + s.1 < diagonal, s.0 < n, row >= 0;
                        }
                    }
                    assert(site.0 + site.1 == diagonal);
                }
                sites.push(site);
                proof {
                    assert(sites@[sites@.len() - 1] == site);
                }
            }
            proof {
                assert forall|r: usize, c: usize|
                    r < n && c < n && wave_before((r, c), diagonal as int, row + 1) implies #[trigger] sites@.contains((r, c)) by {
                    if r == row && r + c == diagonal {
                        assert(sites@[sites@.len() - 1] == (r, c));
                    } else {
                        assert(before.contains((r, c)));
                        let i = choose|i: int| 0 <= i < before.len() && before[i] == (r, c);
                        assert(sites@[i] == (r, c));
                    }
                }
            }
            row = row + 1;
        }
        diagonal = diagonal + 1;
    }
    proof {
        assert forall|r: usize, c: usize| r < n && c < n implies #[trigger] sites@.contains((r, c)) by {
            assert(wave_before((r, c), diagonal as int, 0));
        }
        assert forall|i: int, j: int| 0 <= i < j < sites@.len() implies sites@[i] != sites@[j] by {
            assert(wave_key(n as nat, sites@[i]) < wave_key(n as nat, sites@[j]));
        }
        assert(n * n <= usize::MAX) by (nonlinear_arith) requires n <= 0xffff;
        lemma_site_count(n as nat, sites@);
    }
    sites
}


/// The bond between site `(r, c)` and its right neighbour.
pub open spec fn horizontal_bond(n: nat, r: nat, c: nat) -> Option<usize> {
    if c + 1 < n {
        Some((r * (n - 1) + c) as usize)
    } else {
        None
    }
}

/// The bond between site `(r, c)` and the site below it.
pub open spec fn vertical_bond(n: nat, r: nat, c: nat) -> Option<usize> {
    if r + 1 < n {
        Some((n * (n - 1) + r * n + c) as usize)
    } else {
        None
    }
}

/// The bond between site `(r, c)` and the site below and to the right.
pub open spec fn diag_dr_bond(n: nat, r: nat, c: nat) -> Option<usize> {
    if r + 1 < n && c + 1 < n {
        Some((2 * n * (n - 1) + r * (n - 1) + c) as usize)
    } else {
        None
    }
}

/// The bond between site `(r, c)` and the site below and to the left.
pub open spec fn diag_dl_bond(n: nat, r: nat, c: nat) -> Option<usize> {
    if r + 1 < n && c >= 1 {
        Some((2 * n * (n - 1) + (n - 1) * (n - 1) + r * (n - 1) + c - 1) as usize)
    } else {
        None
    }
}

/// The number of internal bonds of the board.
pub open spec fn bond_count(n: nat) -> nat {
    if n == 0 {
        0
    } else {
        (2 * n * (n - 1) + 2 * (n - 1) * (n - 1)) as nat
    }
}

/// The bond of `family` (horizontal, vertical, down-right, down-left) at a site.
pub open spec fn family_bond(n: nat, family: u8, r: nat, c: nat) -> Option<usize> {
    if family == 0 {
        horizontal_bond(n, r, c)
    } else if family == 1 {
        vertical_bond(n, r, c)
    } else if family == 2 {
        diag_dr_bond(n, r, c)
    } else {
        diag_dl_bond(n, r, c)
    }
}

/// `grid` holds the bonds of `family` of every site of the board.
pub open spec fn grid_holds(n: nat, family: u8, grid: Seq<Vec<Option<usize>>>) -> bool {
    &&& grid.len() == n
    &&& forall|r: int| 0 <= r < n ==> (#[trigger] grid[r])@.len() == n
    &&& forall|r: int, c: int| 0 <= r < n && 0 <= c < n ==> (#[trigger] grid[r]@[c]) == family_bond(n, family, r as nat, c as nat)
}

/// Numbering of the internal bonds of the board.
pub struct BondLayout {
    pub horizontal: Vec<Vec<Option<usize>>>,
    pub vertical: Vec<Vec<Option<usize>>>,
    pub diag_dr: Vec<Vec<Option<usize>>>,
    pub diag_dl: Vec<Vec<Option<usize>>>,
    pub variable_count: usize,
}

impl BondLayout {
    /// The layout numbers the bonds of a board of side `n`.
    pub open spec fn numbers(&self, n: nat) -> bool {
        &&& grid_holds(n, 0, self.horizontal@)
        &&& grid_holds(n, 1, self.vertical@)
        &&& grid_holds(n, 2, self.diag_dr@)
        &&& grid_holds(n, 3, self.diag_dl@)
        &&& self.variable_count == bond_count(n)
    }

    /// Number the bonds row by row: horizontal bonds, then vertical, then
    /// down-right, then down-left diagonals.
    pub fn new(n: usize) -> (layout: Self)
        requires
            n <= 64,
        ensures
            layout.numbers(n as nat),
    {
        let horizontal = bond_grid(n, 0);
        let vertical = bond_grid(n, 1);
        let diag_dr = bond_grid(n, 2);
        let diag_dl = bond_grid(n, 3);
        let variable_count = if n == 0 {
            0
        } else {
            proof {
                assert(n * (n - 1) <= 64 * 64) by (nonlinear_arith) requires n <= 64;
                assert((n - 1) * (n - 1) <= 64 * 64) by (nonlinear_arith) requires n <= 64, n >= 1;
                assert(2 * n * (n - 1) == 2 * (n * (n - 1))) by (nonlinear_arith);
                assert(2 * (n - 1) * (n - 1) == 2 * ((n - 1) * (n - 1))) by (nonlinear_arith);
            }
            2 * n * (n - 1) + 2 * (n - 1) * (n - 1)
        };
        BondLayout { horizontal, vertical, diag_dr, diag_dl, variable_count }
    }
}

/// The bond of `family` at site `(r, c)`.
fn bond_at(n: usize, family: u8, r: usize, c: usize) -> (bond: Option<usize>)
    requires
        n <= 64,
        r < n,
        c < n,
    ensures
        bond == family_bond(n as nat, family, r as nat, c as nat),
{
    proof {
        assert(r * (n - 1) <= 64 * 64) by (nonlinear_arith) requires r < n, n <= 64;
        assert(r * n <= 64 * 64) by (nonlinear_arith) requires r < n, n <= 64;
        assert(n * (n - 1) <= 64 * 64) by (nonlinear_arith) requires n <= 64;
        assert((n - 1) * (n - 1) <= 64 * 64) by (nonlinear_arith) requires n <= 64, n >= 1;
        assert(2 * n * (n - 1) == 2 * (n * (n - 1))) by (nonlinear_arith);
    }
    if family == 0 {
        if c + 1 < n {
            Some(r * (n - 1) + c)
        } else {
            None
        }
    } else if family == 1 {
        if r + 1 < n {
            Some(n * (n - 1) + r * n + c)
        } else {
            None
        }
    } else if family == 2 {
        if r + 1 < n && c + 1 < n {
            Some(2 * n * (n - 1) + r * (n - 1) + c)
        } else {
            None
        }
    } else {
        if r + 1 < n && c >= 1 {
            Some(2 * n * (n - 1) + (n - 1) * (n - 1) + r * (n - 1) + c - 1)
        } else {
            None
        }
    }
}

fn bond_grid(n: usize, family: u8) -> (grid: Vec<Vec<Option<usize>>>)
    requires
        n <= 64,
    ensures
        grid_holds(n as nat, family, grid@),
{
    let mut grid: Vec<Vec<Option<usize>>> = Vec::new();
    let mut r: usize = 0;
    while r < n
        invariant
            n <= 64,
            r <= n,
            grid@.len() == r,
            forall|i: int| 0 <= i < r ==> (#[trigger] grid@[i])@.len() == n,
            forall|i: int, c: int| 0 <= i < r && 0 <= c < n ==> (#[trigger] grid@[i]@[c]) == family_bond(n as nat, family, i as nat, c as nat),
        decreases n - r,
    {
        let mut line: Vec<Option<usize>> = Vec::new();
        let mut c: usize = 0;
        while c < n
            invariant
                n <= 64,
                r < n,
                c <= n,
                line@.len() == c,
                forall|k: int| 0 <= k < c ==> (#[trigger] line@[k]) == family_bond(n as nat, family, r as nat, k as nat),
            decreases n - c,
        {
            line.push(bond_at(n, family, r, c));
            c = c + 1;
        }
        grid.push(line);
        r = r + 1;
    }
    grid
}

/// Record one leg of a site entry: a leg on an internal bond joins the
/// variable mask, and sets its key bit when it carries a signal.
pub open spec fn leg_key(key: u128, variable: Option<usize>, value: u8) -> u128 {
    match variable {
        Some(v) => if value == 1 {
            key | (1u128 << (v as u128))
        } else {
            key
        },
        None => key,
    }
}

/// The variable mask after recording one leg.
pub open spec fn leg_mask(mask: u128, variable: Option<usize>) -> u128 {
    match variable {
        Some(v) => mask | (1u128 << (v as u128)),
        None => mask,
    }
}

fn add_leg(key: &mut u128, variable_mask: &mut u128, variable: Option<usize>, value: u8)
    requires
        variable matches Some(v) ==> v < 128,
    ensures
        *final(key) == leg_key(*old(key), variable, value),
        *final(variable_mask) == leg_mask(*old(variable_mask), variable),
{
    if let Some(variable) = variable {
        let selected = 1u128 << (variable as u128);
        *variable_mask = *variable_mask | selected;
        if value == 1 {
            *key = *key | selected;
        }
    }
}

/// The internal bonds of the eight legs of site `(r, c)`, in leg order.
pub open spec fn site_legs(n: nat, r: nat, c: nat) -> Seq<Option<usize>> {
    seq![
        if r == 0 { None } else { vertical_bond(n, (r - 1) as nat, c) },
        if r + 1 == n { None } else { vertical_bond(n, r, c) },
        if c == 0 { None } else { horizontal_bond(n, r, (c - 1) as nat) },
        if c + 1 == n { None } else { horizontal_bond(n, r, c) },
        if r == 0 || c == 0 { None } else { diag_dr_bond(n, (r - 1) as nat, (c - 1) as nat) },
        if r + 1 == n || c + 1 == n { None } else { diag_dr_bond(n, r, c) },
        if r == 0 || c + 1 == n { None } else { diag_dl_bond(n, (r - 1) as nat, c + 1) },
        if r + 1 == n || c == 0 { None } else { diag_dl_bond(n, r, c) },
    ]
}

/// The eight leg values of a `C` entry, in leg order.
pub open spec fn leg_values(legs: crate::tensor::VirtualLegs) -> Seq<u8> {
    seq![
        legs.column_in,
        legs.column_out,
        legs.row_in,
        legs.row_out,
        legs.diag_dr_in,
        legs.diag_dr_out,
        legs.diag_dl_in,
        legs.diag_dl_out,
    ]
}

/// The key of the first `k` legs of an entry at a site.
pub open spec fn entry_key(variables: Seq<Option<usize>>, values: Seq<u8>, k: nat) -> u128
    decreases k,
{
    if k == 0 {
        0
    } else {
        leg_key(entry_key(variables, values, (k - 1) as nat), variables[k - 1], values[k - 1])
    }
}

/// The variable mask of the first `k` legs of a site.
pub open spec fn site_mask(variables: Seq<Option<usize>>, k: nat) -> u128
    decreases k,
{
    if k == 0 {
        0
    } else {
        leg_mask(site_mask(variables, (k - 1) as nat), variables[k - 1])
    }
}

/// The board boundary fixes the signals of the legs leaving the board: no
/// signal enters from outside, and every column carries one at the bottom and
/// every row at the right.
pub open spec fn admissible(n: nat, r: nat, c: nat, legs: crate::tensor::VirtualLegs) -> bool {
    &&& !(r == 0 && legs.column_in != 0)
    &&& !(r + 1 == n && legs.column_out != 1)
    &&& !(c == 0 && legs.row_in != 0)
    &&& !(c + 1 == n && legs.row_out != 1)
    &&& !((r == 0 || c == 0) && legs.diag_dr_in != 0)
    &&& !((r == 0 || c + 1 == n) && legs.diag_dl_in != 0)
}

/// The keyed terms of the first `i` entries of `C` at site `(r, c)`.
pub open spec fn site_terms(n: nat, r: nat, c: nat, i: int) -> Seq<(PackedBoundary, u128)>
    decreases i,
{
    if i <= 0 {
        Seq::empty()
    } else {
        let entry = sec_vi_c()[i - 1];
        site_terms(n, r, c, i - 1) + if admissible(n, r, c, entry.legs) {
            seq![(PackedBoundary(entry_key(site_legs(n, r, c), leg_values(entry.legs), 8)), entry.value)]
        } else {
            Seq::empty()
        }
    }
}

/// The explicit `C` of one site with its boundary legs fixed, keyed by the
/// internal bonds that carry a signal.
pub struct SiteFactor {
    pub row: usize,
    pub column: usize,
    pub variable_mask: u128,
    pub entries: Vec<(PackedBoundary, u128)>,
}

/// `factor` is the factor of site `(r, c)`: the terms of `C` admitted there,
/// with equal keys merged.
pub open spec fn is_site_factor(n: nat, r: nat, c: nat, factor: SiteFactor) -> bool {
    &&& factor.row == r
    &&& factor.column == c
    &&& factor.variable_mask == site_mask(site_legs(n, r, c), 8)
    &&& keys_strictly_sorted(factor.entries@)
    &&& forall|g: spec_fn(u128) -> nat| #[trigger] weighted_sum(factor.entries@, g) == weighted_sum(site_terms(n, r, c, 17), g)
}

pub(crate) proof fn lemma_unit_weights_total(terms: Seq<(PackedBoundary, u128)>)
    requires
        forall|i: int| 0 <= i < terms.len() ==> #[trigger] terms[i].1 <= 1,
    ensures
        weighted_sum(terms, unit_key()) <= terms.len(),
    decreases terms.len(),
{
    if terms.len() > 0 {
        lemma_unit_weights_total(terms.drop_last());
    }
}

proof fn lemma_site_terms_small(n: nat, r: nat, c: nat, i: int)
    requires
        0 <= i <= 17,
    ensures
        site_terms(n, r, c, i).len() <= i,
        forall|k: int| 0 <= k < site_terms(n, r, c, i).len() ==> #[trigger] site_terms(n, r, c, i)[k].1 == 1,
    decreases i,
{
    if i > 0 {
        lemma_site_terms_small(n, r, c, i - 1);
    }
}


/// Every internal bond of a board with at most six rows is numbered below 128.
proof fn lemma_site_legs_small(n: nat, r: nat, c: nat)
    requires
        1 <= n <= MAX_ORACLE_N,
        r < n,
        c < n,
    ensures
        forall|k: int| 0 <= k < 8 ==> ((#[trigger] site_legs(n, r, c)[k]) matches Some(v) ==> v < 128),
{
    assert(r * (n - 1) <= 25) by (nonlinear_arith) requires r < n, n <= 6;
    assert(r * n <= 30) by (nonlinear_arith) requires r < n, n <= 6;
    assert(n * (n - 1) <= 30) by (nonlinear_arith) requires 1 <= n <= 6;
    assert((n - 1) * (n - 1) <= 25) by (nonlinear_arith) requires 1 <= n <= 6;
    if r >= 1 {
        assert((r - 1) * (n - 1) <= 25) by (nonlinear_arith) requires 1 <= r < n, n <= 6;
        assert((r - 1) * n <= 30) by (nonlinear_arith) requires 1 <= r < n, n <= 6;
    }
    assert(2 * n * (n - 1) == 2 * (n * (n - 1))) by (nonlinear_arith);
}


/// The key and variable mask of an entry with legs `legs` at site
/// `(row, column)`.
fn site_entry_key(
    n: usize,
    row: usize,
    column: usize,
    layout: &BondLayout,
    legs: crate::tensor::VirtualLegs,
) -> (keyed: (u128, u128))
    requires
        1 <= n <= MAX_ORACLE_N,
        row < n,
        column < n,
        layout.numbers(n as nat),
    ensures
        keyed.0 == entry_key(site_legs(n as nat, row as nat, column as nat), leg_values(legs), 8),
        keyed.1 == site_mask(site_legs(n as nat, row as nat, column as nat), 8),
{
    let ghost variables = site_legs(n as nat, row as nat, column as nat);
    proof {
        lemma_site_legs_small(n as nat, row as nat, column as nat);
    }
    let mut key: u128 = 0;
    let mut variable_mask: u128 = 0;
    let v0 = if row == 0 { None } else { layout.vertical[row - 1][column] };
    let v1 = if row + 1 == n { None } else { layout.vertical[row][column] };
    let v2 = if column == 0 { None } else { layout.horizontal[row][column - 1] };
    let v3 = if column + 1 == n { None } else { layout.horizontal[row][column] };
    let v4 = if row == 0 || column == 0 { None } else { layout.diag_dr[row - 1][column - 1] };
    let v5 = if row + 1 == n || column + 1 == n { None } else { layout.diag_dr[row][column] };
    let v6 = if row == 0 || column + 1 == n { None } else { layout.diag_dl[row - 1][column + 1] };
    let v7 = if row + 1 == n || column == 0 { None } else { layout.diag_dl[row][column] };
    proof {
        assert(v0 == variables[0]);
        assert(v1 == variables[1]);
        assert(v2 == variables[2]);
        assert(v3 == variables[3]);
        assert(v4 == variables[4]);
        assert(v5 == variables[5]);
        assert(v6 == variables[6]);
        assert(v7 == variables[7]);
    }
    add_leg(&mut key, &mut variable_mask, v0, legs.column_in);
    add_leg(&mut key, &mut variable_mask, v1, legs.column_out);
    add_leg(&mut key, &mut variable_mask, v2, legs.row_in);
    add_leg(&mut key, &mut variable_mask, v3, legs.row_out);
    add_leg(&mut key, &mut variable_mask, v4, legs.diag_dr_in);
    add_leg(&mut key, &mut variable_mask, v5, legs.diag_dr_out);
    add_leg(&mut key, &mut variable_mask, v6, legs.diag_dl_in);
    add_leg(&mut key, &mut variable_mask, v7, legs.diag_dl_out);
    proof {
        reveal_with_fuel(entry_key, 9);
        reveal_with_fuel(site_mask, 9);
        assert(key == entry_key(variables, leg_values(legs), 8));
        assert(variable_mask == site_mask(variables, 8));
    }
    (key, variable_mask)
}

/// The explicit `C` of site `(row, column)` as a factor over the internal
/// bonds that its legs share with neighbouring sites.
pub fn build_site_factor(
    n: usize,
    row: usize,
    column: usize,
    layout: &BondLayout,
    tensor: &SiteTensorC,
) -> (factor: Result<SiteFactor, String>)
    requires
        1 <= n <= MAX_ORACLE_N,
        row < n,
        column < n,
        layout.numbers(n as nat),
    ensures
        factor is Ok,
        factor matches Ok(f) ==> is_site_factor(n as nat, row as nat, column as nat, f),
{
    let ghost nn = n as nat;
    let ghost variables = site_legs(nn, row as nat, column as nat);
    proof {
        lemma_site_legs_small(nn, row as nat, column as nat);
    }
    let entries = tensor.entries();
    let mut candidates: Vec<(PackedBoundary, u128)> = Vec::new();
    let mut factor_mask: Option<u128> = None;
    let mut i: usize = 0;
    while i < entries.len()
        invariant
            1 <= n <= MAX_ORACLE_N,
            row < n,
            column < n,
            layout.numbers(nn),
            nn == n,
            variables == site_legs(nn, row as nat, column as nat),
            forall|k: int| 0 <= k < 8 ==> ((#[trigger] variables[k]) matches Some(v) ==> v < 128),
            entries@ == sec_vi_c(),
            i <= 17,
            candidates@ == site_terms(nn, row as nat, column as nat, i as int),
            factor_mask matches Some(m) ==> m == site_mask(variables, 8),
            i > 8 ==> factor_mask is Some,
        decreases 17 - i,
    {
        let entry = entries[i];
        let legs = entry.legs;
        proof {
            if i == 8 {
                assert(legs == crate::tensor::occupied_legs());
            }
        }
        if (row == 0 && legs.column_in != 0) || (row + 1 == n && legs.column_out != 1) || (column == 0
            && legs.row_in != 0) || (column + 1 == n && legs.row_out != 1) || ((row == 0 || column == 0)
            && legs.diag_dr_in != 0) || ((row == 0 || column + 1 == n) && legs.diag_dl_in != 0) {
            i = i + 1;
            continue;
        }
        let (key, variable_mask) = site_entry_key(n, row, column, layout, legs);
        match factor_mask {
            Some(expected) => {
                if expected != variable_mask {
                    return Err(message("site entries disagree on virtual-leg geometry"));
                }
            },
            None => {
                factor_mask = Some(variable_mask);
            },
        }
        candidates.push((PackedBoundary(key), entry.value));
        i = i + 1;
    }
    let ghost collected = candidates@;
    proof {
        lemma_site_terms_small(nn, row as nat, column as nat, 17);
    }
    sort_by_packed_key(&mut candidates);
    proof {
        assert forall|key: u128| #[trigger] weighted_sum(candidates@, indicator(key)) <= u128::MAX by {
            lemma_weighted_sum_permutation(collected, candidates@, indicator(key));
            lemma_indicator_le_total(collected, key);
            lemma_unit_weights_total(collected);
        }
    }
    let ghost sorted = candidates@;
    match reduce_sorted_candidates(&mut candidates, row) {
        Ok(()) => {},
        Err(e) => {
            return Err(e);
        },
    }
    proof {
        assert forall|g: spec_fn(u128) -> nat| #[trigger] weighted_sum(candidates@, g) == weighted_sum(
            site_terms(nn, row as nat, column as nat, 17),
            g,
        ) by {
            lemma_weighted_sum_permutation(collected, sorted, g);
        }
    }
    let variable_mask = match factor_mask {
        Some(mask) => mask,
        None => 0,
    };
    Ok(SiteFactor { row, column, variable_mask, entries: candidates })
}


/// One contraction step of the oracle.
#[derive(Clone, Copy, Debug)]
pub struct OrderingStepMetric {
    pub step: usize,
    pub row: usize,
    pub column: usize,
    pub frontier_variables: usize,
    pub input_support: usize,
    pub local_support: usize,
    pub candidate_pairs: u128,
    pub matched_pairs: u128,
    pub output_support: usize,
    pub elapsed: Duration,
    pub peak_rss_bytes: u64,
}

/// A complete contraction of the oracle in one site order.
#[derive(Debug)]
pub struct OrderingProfile {
    pub n: usize,
    pub ordering: SiteOrdering,
    pub count: u128,
    pub elapsed: Duration,
    pub peak_support: usize,
    pub peak_frontier_variables: usize,
    pub candidate_pairs: u128,
    pub matched_pairs: u128,
    pub peak_rss_bytes: u64,
    pub steps: Vec<OrderingStepMetric>,
}

/// The number of set bits among the `k` lowest bits of `mask`.
pub open spec fn ones(mask: u128, k: nat) -> nat
    decreases k,
{
    if k == 0 {
        0
    } else {
        ones(mask, (k - 1) as nat) + (if (mask >> ((k - 1) as u128)) & 1 == 1 {
            1nat
        } else {
            0nat
        })
    }
}

/// The number of set bits of `mask`.
pub fn count_ones(mask: u128) -> (count: usize)
    ensures
        count == ones(mask, 128),
{
    let mut count: usize = 0;
    let mut k: u32 = 0;
    while k < 128
        invariant
            k <= 128,
            count == ones(mask, k as nat),
            count <= k,
        decreases 128 - k,
    {
        if (mask >> (k as u128)) & 1 == 1 {
            count = count + 1;
        }
        k = k + 1;
    }
    count
}

/// The union of the variable masks of the factors still to contract.
pub open spec fn remaining_mask(factors: Seq<Option<SiteFactor>>, k: int) -> u128
    decreases k,
{
    if k <= 0 {
        0
    } else {
        remaining_mask(factors, k - 1) | match factors[k - 1] {
            Some(f) => f.variable_mask,
            None => 0,
        }
    }
}

fn future_variables(factors: &Vec<Option<SiteFactor>>) -> (mask: u128)
    ensures
        mask == remaining_mask(factors@, factors@.len() as int),
{
    let mut mask: u128 = 0;
    let mut k: usize = 0;
    while k < factors.len()
        invariant
            k <= factors@.len(),
            mask == remaining_mask(factors@, k as int),
        decreases factors@.len() - k,
    {
        match &factors[k] {
            Some(f) => {
                mask = mask | f.variable_mask;
            },
            None => {
                assert(mask | 0 == mask) by (bit_vector);
            },
        }
        k = k + 1;
    }
    mask
}

/// The rows and columns of the steps of a profile.
pub open spec fn step_sites(steps: Seq<OrderingStepMetric>) -> Seq<(usize, usize)> {
    steps.map_values(|step: OrderingStepMetric| (step.row, step.column))
}

/// Contract the board of side `n` site by site in the requested order,
/// carrying the partial contraction as a sparse map from the values of the
/// open bonds to coefficients.
pub fn profile_ordering(n: usize, ordering: SiteOrdering) -> (profile: Result<OrderingProfile, String>)
    ensures
        n == 0 ==> (profile matches Ok(p) && p.count == 1 && p.steps@.len() == 0 && p.peak_support == 1
            && p.peak_frontier_variables == 0 && p.candidate_pairs == 0 && p.matched_pairs == 0),
        n > MAX_ORACLE_N ==> profile is Err,
        profile matches Ok(p) ==> {
            &&& p.n == n
            &&& p.ordering == ordering
            &&& p.steps@.len() == n * n
            &&& is_site_permutation(n as nat, step_sites(p.steps@))
            &&& ordering_shape(n as nat, ordering, step_sites(p.steps@))
            &&& forall|i: int| 0 <= i < p.steps@.len() ==> (#[trigger] p.steps@[i]).step == i
                && p.steps@[i].matched_pairs <= p.steps@[i].candidate_pairs
                && p.steps@[i].output_support <= p.peak_support
            &&& p.matched_pairs <= p.candidate_pairs
        },
{
    if n == 0 {
        assert(step_sites(Seq::<OrderingStepMetric>::empty()) =~= row_major_sites(0));
        return Ok(
            OrderingProfile {
                n,
                ordering,
                count: 1,
                elapsed: zero_duration(),
                peak_support: 1,
                peak_frontier_variables: 0,
                candidate_pairs: 0,
                matched_pairs: 0,
                peak_rss_bytes: peak_rss_bytes(),
                steps: Vec::new(),
            },
        );
    }
    if n > MAX_ORACLE_N {
        return Err(message("generic direct-TN oracle is limited to N <= 6"));
    }
    let layout = BondLayout::new(n);
    if layout.variable_count > 128 {
        return Err(message("direct-TN oracle needs more than 128 internal bonds"));
    }
    let tensor = SiteTensorC::sec_vi();
    let mut factors: Vec<Option<SiteFactor>> = Vec::new();
    let mut row: usize = 0;
    while row < n
        invariant
            1 <= n <= MAX_ORACLE_N,
            row <= n,
            layout.numbers(n as nat),
            factors@.len() == row * n,
            forall|k: int| 0 <= k < factors@.len() ==> ((#[trigger] factors@[k]) matches Some(f) && f.row == k
                / (n as int) && f.column == k % (n as int)),
        decreases n - row,
    {
        let mut column: usize = 0;
        while column < n
            invariant
                1 <= n <= MAX_ORACLE_N,
                row < n,
                column <= n,
                layout.numbers(n as nat),
                factors@.len() == row * n + column,
                forall|k: int| 0 <= k < factors@.len() ==> ((#[trigger] factors@[k]) matches Some(f) && f.row
                    == k / (n as int) && f.column == k % (n as int)),
            decreases n - column,
        {
            let factor = match build_site_factor(n, row, column, &layout, &tensor) {
                Ok(factor) => factor,
                Err(e) => {
                    return Err(e);
                },
            };
            proof {
                lemma_div_mod(row * n + column, n as int, row as int, column as int);
            }
            factors.push(Some(factor));
            column = column + 1;
        }
        assert((row + 1) * n == row * n + n) by (nonlinear_arith);
        row = row + 1;
    }
    let order = ordered_sites(n, ordering);
    if order.len() != n * n {
        return Err(message("ordering does not contain every site exactly once"));
    }
    let mut current_mask: u128 = 0;
    let mut current: Vec<(PackedBoundary, u128)> = vec![(PackedBoundary(0), 1)];
    let mut peak_support: usize = 1;
    let mut peak_frontier_variables: usize = 0;
    let mut total_candidates: u128 = 0;
    let mut total_matched: u128 = 0;
    let mut steps: Vec<OrderingStepMetric> = Vec::new();
    let total_start = now();
    let mut step: usize = 0;
    while step < order.len()
        invariant
            1 <= n <= MAX_ORACLE_N,
            order@.len() == n * n,
            factors@.len() == n * n,
            is_site_permutation(n as nat, order@),
            steps@.len() == step,
            step <= order@.len(),
            forall|i: int| 0 <= i < step ==> (#[trigger] steps@[i]).step == i && steps@[i].row == order@[i].0
                && steps@[i].column == order@[i].1
                && steps@[i].matched_pairs <= steps@[i].candidate_pairs
                && steps@[i].output_support <= peak_support,
            current@.len() <= peak_support,
            total_matched <= total_candidates,
            forall|k: int| 0 <= k < factors@.len() ==> ((#[trigger] factors@[k]) matches Some(f) ==> f.row == k
                / (n as int) && f.column == k % (n as int)),
        decreases order@.len() - step,
    {
        let (site_row, site_column) = order[step];
        proof {
            assert(on_board(n as nat, order@[step as int]));
            assert(site_row * n + site_column < n * n) by (nonlinear_arith)
                requires site_row < n, site_column < n;
        }
        let index = site_row * n + site_column;
        proof {
            lemma_div_mod(index as int, n as int, site_row as int, site_column as int);
        }
        let mut taken: Option<SiteFactor> = None;
        std::mem::swap(&mut taken, &mut factors[index]);
        let factor = match taken {
            Some(factor) => factor,
            None => {
                return Err(message("ordering contains a duplicate site"));
            },
        };
        let future_mask = future_variables(&factors);
        let step_start = now();
        let shared_mask = current_mask & factor.variable_mask;
        let output_mask = (current_mask | factor.variable_mask) & future_mask;
        let input_support = current.len();
        proof {
            assert((input_support as u128) * (factor.entries.len() as u128) <= u128::MAX) by (nonlinear_arith)
                requires input_support <= usize::MAX, factor.entries.len() <= usize::MAX, usize::MAX < 0x1_0000_0000_0000_0000;
        }
        let candidate_pairs = input_support as u128 * factor.entries.len() as u128;
        let mut matched_pairs: u128 = 0;
        let mut next: Vec<(PackedBoundary, u128)> = Vec::new();
        let mut i: usize = 0;
        while i < current.len()
            invariant
                1 <= n <= MAX_ORACLE_N,
                i <= current@.len(),
                input_support == current@.len(),
                candidate_pairs == input_support * factor.entries@.len(),
                matched_pairs <= i * factor.entries@.len(),
            decreases current@.len() - i,
        {
            let (boundary_key, boundary_value) = current[i];
            let mut j: usize = 0;
            while j < factor.entries.len()
                invariant
                    1 <= n <= MAX_ORACLE_N,
                    i < current@.len(),
                    j <= factor.entries@.len(),
                    candidate_pairs == input_support * factor.entries@.len(),
                    input_support == current@.len(),
                    matched_pairs <= i * factor.entries@.len() + j,
                decreases factor.entries@.len() - j,
            {
                let (factor_key, factor_value) = factor.entries[j];
                proof {
                    assert(i * factor.entries@.len() + j < candidate_pairs) by (nonlinear_arith)
                        requires i < input_support, j < factor.entries@.len(),
                            candidate_pairs == input_support * factor.entries@.len();
                }
                if (boundary_key.0 ^ factor_key.0) & shared_mask == 0 {
                    matched_pairs = matched_pairs + 1;
                    let output_key = (boundary_key.0 | factor_key.0) & output_mask;
                    let product = match boundary_value.checked_mul(factor_value) {
                        Some(product) => product,
                        None => {
                            return Err(message("direct-TN product overflow"));
                        },
                    };
                    next.push((PackedBoundary(output_key), product));
                }
                j = j + 1;
            }
            assert((i + 1) * factor.entries@.len() == i * factor.entries@.len() + factor.entries@.len()) by (nonlinear_arith);
            i = i + 1;
        }
        sort_by_packed_key(&mut next);
        match reduce_sorted_candidates(&mut next, step) {
            Ok(()) => {},
            Err(_) => {
                return Err(message("direct-TN sum overflow"));
            },
        }
        current = next;
        current_mask = output_mask;
        if current.len() > peak_support {
            peak_support = current.len();
        }
        let frontier_variables = count_ones(current_mask);
        if frontier_variables > peak_frontier_variables {
            peak_frontier_variables = frontier_variables;
        }
        total_candidates = match total_candidates.checked_add(candidate_pairs) {
            Some(total) => total,
            None => {
                return Err(message("direct-TN candidate counter overflow"));
            },
        };
        total_matched = match total_matched.checked_add(matched_pairs) {
            Some(total) => total,
            None => {
                return Err(message("direct-TN candidate counter overflow"));
            },
        };
        steps.push(
            OrderingStepMetric {
                step,
                row: factor.row,
                column: factor.column,
                frontier_variables,
                input_support,
                local_support: factor.entries.len(),
                candidate_pairs,
                matched_pairs,
                output_support: current.len(),
                elapsed: elapsed(&step_start),
                peak_rss_bytes: peak_rss_bytes(),
            },
        );
        step = step + 1;
    }
    if current_mask != 0 || current.len() > 1 {
        return Err(message("direct-TN contraction did not finish at a scalar"));
    }
    assert(step_sites(steps@) =~= order@);
    let count = if current.len() == 1 && current[0].0.0 == 0 {
        current[0].1
    } else {
        0
    };
    Ok(
        OrderingProfile {
            n,
            ordering,
            count,
            elapsed: elapsed(&total_start),
            peak_support,
            peak_frontier_variables,
            candidate_pairs: total_candidates,
            matched_pairs: total_matched,
            peak_rss_bytes: peak_rss_bytes(),
            steps,
        },
    )
}

} // verus!
