//! Contraction of the explicit `C` network site by site along a frontier of
//! open virtual bonds. Every site carries the seventeen entries of `C`; each
//! bond between two sites is an edge, and the legs on the board's border are
//! fixed to their boundary vectors. The frontier state is the list of the
//! values of the open bonds, packed into a `u128` in the order of the bond
//! numbers.
use vstd::prelude::*;

use crate::tensor::{CEntry, SiteTensorC};
use crate::util::{decimal, elapsed, message, now, peak_rss_bytes, zero_duration};
use std::collections::HashMap;
use std::time::Duration;

verus! {

broadcast use vstd::std_specs::hash::group_hash_axioms;

/// The order in which the sites of the board are contracted.
#[derive(Clone, Copy, Debug, PartialEq, Eq, Structural)]
pub enum ExplicitFrontierOrder {
    RowMajor,
    TopLeftDiamond,
}

/// A frontier contraction of the explicit `C` network; `count` is present
/// exactly when every site was contracted within the support limit.
#[derive(Debug)]
pub struct ExplicitFrontierResult {
    pub n: usize,
    pub order: ExplicitFrontierOrder,
    pub complete: bool,
    pub count: Option<u128>,
    pub elapsed: Duration,
    pub peak_states: usize,
    pub peak_open_bonds: usize,
    pub tensor_entries_examined: u128,
    pub tensor_entries_accepted: u128,
    pub contracted_sites: usize,
    pub peak_rss_bytes: u64,
}

/// A leg of a site: fixed on the border to the values of the mask, or an
/// edge shared with a neighbouring site.
#[derive(Clone, Copy, Debug, PartialEq, Eq, Structural)]
pub enum FrontierLeg {
    Boundary(u8),
    Edge(usize),
}

/// A site with its eight legs in the leg order of `C`.
#[derive(Clone, Copy, Debug)]
pub struct FrontierSite {
    pub row: usize,
    pub column: usize,
    pub legs: [FrontierLeg; 8],
}

/// What one entry of `C` asks of the open bonds and adds to them.
#[derive(Clone, Copy, Debug)]
struct FrontierTransition {
    required_mask: u128,
    required_value: u128,
    added_value: u128,
    local_value: u128,
}

/// The number of bonds of the board of side `n`.
pub open spec fn bond_count(n: nat) -> nat {
    let span = if n == 0 {
        0
    } else {
        (n - 1) as nat
    };
    n * span + n * span + span * span + span * span
}

/// Every edge of the sites names a bond of the board.
pub open spec fn sites_ok(n: nat, sites: Seq<FrontierSite>) -> bool {
    forall|s: int, k: int|
        0 <= s < sites.len() && 0 <= k < 8 ==> match (#[trigger] sites[s].legs[k]) {
            FrontierLeg::Edge(e) => e < bond_count(n),
            FrontierLeg::Boundary(_) => true,
        }
}

/// The sites of the board in row-major order: rows, then columns, then the
/// down-right and down-left diagonals number the bonds.
pub fn explicit_frontier_sites(n: usize) -> (sites: Vec<FrontierSite>)
    requires
        1 <= n <= 21,
    ensures
        sites@.len() == n * n,
        sites_ok(n as nat, sites@),
        forall|s: int| 0 <= s < sites@.len() ==> (#[trigger] sites@[s]).row < n && sites@[s].column < n,
{
    let span = n - 1;
    proof {
        assert(n * span <= 21 * 20) by (nonlinear_arith)
            requires
                n <= 21,
                span <= 20,
        ;
        assert(span * span <= 20 * 20) by (nonlinear_arith)
            requires
                span <= 20,
        ;
    }
    let column_offset = n * span;
    let diag_dr_offset = column_offset + n * span;
    let diag_dl_offset = diag_dr_offset + span * span;
    proof {
        assert(bond_count(n as nat) == diag_dl_offset + span * span);
    }
    let mut sites: Vec<FrontierSite> = Vec::new();
    let mut row: usize = 0;
    while row < n
        invariant
            1 <= n <= 21,
            span == n - 1,
            column_offset == n * span,
            diag_dr_offset == column_offset + n * span,
            diag_dl_offset == diag_dr_offset + span * span,
            bond_count(n as nat) == diag_dl_offset + span * span,
            n * span <= 420,
            span * span <= 400,
            row <= n,
            sites@.len() == row * n,
            sites_ok(n as nat, sites@),
            forall|s: int| 0 <= s < sites@.len() ==> (#[trigger] sites@[s]).row < n && sites@[s].column < n,
        decreases n - row,
    {
        let mut column: usize = 0;
        while column < n
            invariant
                1 <= n <= 21,
                span == n - 1,
                column_offset == n * span,
                diag_dr_offset == column_offset + n * span,
                diag_dl_offset == diag_dr_offset + span * span,
                bond_count(n as nat) == diag_dl_offset + span * span,
                n * span <= 420,
                span * span <= 400,
                row < n,
                column <= n,
                sites@.len() == row * n + column,
                sites_ok(n as nat, sites@),
                forall|s: int| 0 <= s < sites@.len() ==> (#[trigger] sites@[s]).row < n && sites@[s].column < n,
            decreases n - column,
        {
            proof {
                assert(row * span + span <= n * span) by (nonlinear_arith)
                    requires
                        row < n,
                ;
                assert(row * n <= n * span) by (nonlinear_arith)
                    requires
                        row < n,
                        span == n - 1,
                ;
                if row + 1 < n {
                    assert(row * n + n <= n * span) by (nonlinear_arith)
                        requires
                            row + 1 < n,
                            span == n - 1,
                    ;
                    assert(row * span + span <= span * span) by (nonlinear_arith)
                        requires
                            row + 1 < n,
                            span == n - 1,
                    ;
                }
                if row >= 1 {
                    assert((row - 1) * n + n == row * n) by (nonlinear_arith);
                    assert((row - 1) * span + span == row * span) by (nonlinear_arith);
                    assert(row * span <= span * span) by (nonlinear_arith)
                        requires
                            row < n,
                            span == n - 1,
                    ;
                }
            }
            let column_in = if row == 0 {
                FrontierLeg::Boundary(1)
            } else {
                FrontierLeg::Edge(column_offset + (row - 1) * n + column)
            };
            let column_out = if row + 1 == n {
                FrontierLeg::Boundary(2)
            } else {
                FrontierLeg::Edge(column_offset + row * n + column)
            };
            let row_in = if column == 0 {
                FrontierLeg::Boundary(1)
            } else {
                FrontierLeg::Edge(row * span + column - 1)
            };
            let row_out = if column + 1 == n {
                FrontierLeg::Boundary(2)
            } else {
                FrontierLeg::Edge(row * span + column)
            };
            let diag_dr_in = if row == 0 || column == 0 {
                FrontierLeg::Boundary(1)
            } else {
                FrontierLeg::Edge(diag_dr_offset + (row - 1) * span + column - 1)
            };
            let diag_dr_out = if row + 1 == n || column + 1 == n {
                FrontierLeg::Boundary(3)
            } else {
                FrontierLeg::Edge(diag_dr_offset + row * span + column)
            };
            let diag_dl_in = if row == 0 || column + 1 == n {
                FrontierLeg::Boundary(1)
            } else {
                FrontierLeg::Edge(diag_dl_offset + (row - 1) * span + column)
            };
            let diag_dl_out = if row + 1 == n || column == 0 {
                FrontierLeg::Boundary(3)
            } else {
                FrontierLeg::Edge(diag_dl_offset + row * span + column - 1)
            };
            let site = FrontierSite {
                row,
                column,
                legs: [column_in, column_out, row_in, row_out, diag_dr_in, diag_dr_out, diag_dl_in, diag_dl_out],
            };
            let ghost before = sites@;
            sites.push(site);
            proof {
                assert forall|s: int, k: int| 0 <= s < sites@.len() && 0 <= k < 8 implies match (
                #[trigger] sites@[s].legs[k]) {
                    FrontierLeg::Edge(e) => e < bond_count(n as nat),
                    FrontierLeg::Boundary(_) => true,
                } by {
                    if s < before.len() {
                        assert(sites@[s] == before[s]);
                    }
                }
            }
            column = column + 1;
        }
        proof {
            assert((row + 1) * n == row * n + n) by (nonlinear_arith);
        }
        row = row + 1;
    }
    sites
}

/// The site numbers in contraction order: row-major, or by anti-diagonals
/// from the top-left corner, each anti-diagonal from its top row down.
pub fn explicit_frontier_order(n: usize, order: ExplicitFrontierOrder) -> (sites: Vec<usize>)
    requires
        1 <= n <= 21,
    ensures
        forall|i: int| 0 <= i < sites@.len() ==> #[trigger] sites@[i] < n * n,
        order == ExplicitFrontierOrder::RowMajor ==> sites@ == Seq::new((n * n) as nat, |i: int| i as usize),
{
    let mut sites: Vec<usize> = Vec::new();
    proof {
        assert(n * n <= 441) by (nonlinear_arith)
            requires
                n <= 21,
        ;
    }
    if order == ExplicitFrontierOrder::RowMajor {
        let mut i: usize = 0;
        while i < n * n
            invariant
                1 <= n <= 21,
                i <= n * n,
                n * n <= 441,
                sites@ == Seq::new(i as nat, |k: int| k as usize),
            decreases n * n - i,
        {
            sites.push(i);
            i = i + 1;
        }
        return sites;
    }
    let mut d: usize = 0;
    while d + 1 < 2 * n
        invariant
            1 <= n <= 21,
            d <= 2 * n,
            forall|i: int| 0 <= i < sites@.len() ==> #[trigger] sites@[i] < n * n,
        decreases 2 * n - d,
    {
        let mut row: usize = 0;
        while row < n
            invariant
                1 <= n <= 21,
                d + 1 < 2 * n,
                row <= n,
                forall|i: int| 0 <= i < sites@.len() ==> #[trigger] sites@[i] < n * n,
            decreases n - row,
        {
            if row <= d && d - row < n {
                proof {
                    assert(row * n <= 441) by (nonlinear_arith)
                        requires
                            row < n,
                            n <= 21,
                    ;
                    assert(row * n + (d - row) < n * n) by (nonlinear_arith)
                        requires
                            row < n,
                            d - row < n,
                    ;
                }
                sites.push(row * n + (d - row));
            }
            row = row + 1;
        }
        d = d + 1;
    }
    sites
}

/// The value that leg `k` of `entry` carries, legs in the order of the sites.
fn leg_value(entry: CEntry, k: usize) -> (value: u8)
    requires
        k < 8,
{
    match k {
        0 => entry.legs.column_in,
        1 => entry.legs.column_out,
        2 => entry.legs.row_in,
        3 => entry.legs.row_out,
        4 => entry.legs.diag_dr_in,
        5 => entry.legs.diag_dr_out,
        6 => entry.legs.diag_dl_in,
        _ => entry.legs.diag_dl_out,
    }
}

/// The position of `edge` among `edges`.
fn position_of(edges: &Vec<usize>, edge: usize) -> (position: Option<usize>)
    ensures
        position matches Some(p) ==> p < edges@.len() && edges@[p as int] == edge,
        position is None ==> !edges@.contains(edge),
{
    let mut i: usize = 0;
    while i < edges.len()
        invariant
            i <= edges@.len(),
            forall|j: int| 0 <= j < i ==> edges@[j] != edge,
        decreases edges@.len() - i,
    {
        if edges[i] == edge {
            return Some(i);
        }
        i = i + 1;
    }
    None
}

/// Formats `prefix` and the site `(row,column)` with `std::format!`: the text
/// is `prefix`, " (", `row` in decimal, ",", `column` in decimal and ")".
#[verifier::external_body]
fn site_message(prefix: &str, row: usize, column: usize) -> (text: String)
    ensures
        text@ == prefix@ + " ("@ + decimal(row as nat) + ","@ + decimal(column as nat) + ")"@,
{
    format!("{prefix} ({row},{column})")
}

/// Contract the explicit `C` network of the board of side `n` site by site in
/// the order `order`, giving up as soon as a frontier holds more than
/// `support_limit` distinct states.
pub fn contract_explicit_c_frontier(n: usize, order: ExplicitFrontierOrder, support_limit: usize) -> (result:
    Result<ExplicitFrontierResult, String>)
    ensures
        n > 21 || support_limit == 0 ==> result is Err,
        n == 0 && support_limit >= 1 ==> (result matches Ok(r) && r.complete && r.count == Some(1u128)),
        result matches Ok(r) ==> {
            &&& r.n == n
            &&& r.order == order
            &&& (r.complete <==> r.count is Some)
            &&& r.complete ==> r.contracted_sites == n * n
            &&& (r.complete <==> r.peak_states <= support_limit)
            &&& r.tensor_entries_accepted <= r.tensor_entries_examined
        },
{
    if n > 21 {
        return Err(message("explicit-C frontier key supports N <= 21"));
    }
    if support_limit == 0 {
        return Err(message("explicit-C frontier support limit must be positive"));
    }
    if n == 0 {
        return Ok(
            ExplicitFrontierResult {
                n,
                order,
                complete: true,
                count: Some(1),
                elapsed: zero_duration(),
                peak_states: 1,
                peak_open_bonds: 0,
                tensor_entries_examined: 0,
                tensor_entries_accepted: 0,
                contracted_sites: 0,
                peak_rss_bytes: peak_rss_bytes(),
            },
        );
    }
    let tensor = SiteTensorC::sec_vi();
    let entries = tensor.entries();
    if entries.len() != 17 {
        return Err(message("explicit-C frontier requires the Sec. VI 17-entry tensor"));
    }
    let sites = explicit_frontier_sites(n);
    let ordering = explicit_frontier_order(n, order);
    let mut boundary: Vec<(u128, u128)> = vec![(0, 1)];
    let mut open_edges: Vec<usize> = Vec::new();
    let mut peak_states: usize = 1;
    let mut peak_open_bonds: usize = 0;
    let mut examined: u128 = 0;
    let mut accepted: u128 = 0;
    let total_start = now();
    let mut step: usize = 0;
    while step < ordering.len()
        invariant
            1 <= n <= 21,
            sites@.len() == n * n,
            forall|i: int| 0 <= i < ordering@.len() ==> #[trigger] ordering@[i] < n * n,
            open_edges@.len() <= 128,
            accepted <= examined,
            step <= ordering@.len(),
            entries@.len() == 17,
            support_limit >= 1,
            1 <= peak_states <= support_limit,
        decreases ordering@.len() - step,
    {
        let site = sites[ordering[step]];
        let mut incident: Vec<usize> = Vec::new();
        let mut k: usize = 0;
        while k < 8
            invariant
                k <= 8,
            decreases 8 - k,
        {
            match site.legs[k] {
                FrontierLeg::Edge(edge) => {
                    incident.push(edge);
                },
                FrontierLeg::Boundary(_) => {},
            }
            k = k + 1;
        }
        let mut next_open: Vec<usize> = Vec::new();
        let mut i: usize = 0;
        while i < open_edges.len()
            invariant
                i <= open_edges@.len(),
            decreases open_edges@.len() - i,
        {
            let edge = open_edges[i];
            if position_of(&incident, edge).is_none() {
                next_open.push(edge);
            }
            i = i + 1;
        }
        let mut j: usize = 0;
        while j < incident.len()
            invariant
                j <= incident@.len(),
            decreases incident@.len() - j,
        {
            let edge = incident[j];
            if position_of(&open_edges, edge).is_none() {
                next_open.push(edge);
            }
            j = j + 1;
        }
        crate::path_search::sort_sites(&mut next_open);
        if next_open.len() > 128 {
            return Err(site_message("explicit-C frontier exceeds 128 open bonds at site", site.row, site.column));
        }
        let mut carry: Vec<(usize, usize)> = Vec::new();
        let mut p: usize = 0;
        while p < open_edges.len()
            invariant
                p <= open_edges@.len(),
                open_edges@.len() <= 128,
                next_open@.len() <= 128,
                forall|c: int| 0 <= c < carry@.len() ==> (#[trigger] carry@[c]).0 < 128 && carry@[c].1 < 128,
            decreases open_edges@.len() - p,
        {
            match position_of(&next_open, open_edges[p]) {
                Some(q) => {
                    carry.push((p, q));
                },
                None => {},
            }
            p = p + 1;
        }
        let mut transitions: Vec<FrontierTransition> = Vec::new();
        let mut e: usize = 0;
        while e < entries.len()
            invariant
                e <= entries@.len(),
                entries@.len() == 17,
                transitions@.len() <= e,
                open_edges@.len() <= 128,
                next_open@.len() <= 128,
                1 <= n <= 21,
                support_limit >= 1,
            decreases entries@.len() - e,
        {
            let entry = entries[e];
            let mut fits = true;
            let mut required_mask: u128 = 0;
            let mut required_value: u128 = 0;
            let mut added_value: u128 = 0;
            let mut l: usize = 0;
            while l < 8
                invariant
                    l <= 8,
                    open_edges@.len() <= 128,
                    next_open@.len() <= 128,
                    1 <= n <= 21,
                    support_limit >= 1,
                decreases 8 - l,
            {
                let value = leg_value(entry, l);
                match site.legs[l] {
                    FrontierLeg::Boundary(allowed) => {
                        if value >= 8 || allowed & (1u8 << value) == 0 {
                            fits = false;
                        }
                    },
                    FrontierLeg::Edge(edge) => {
                        match position_of(&open_edges, edge) {
                            Some(position) => {
                                required_mask = required_mask | (1u128 << position);
                                required_value = required_value | ((value as u128) << position);
                            },
                            None => {
                                match position_of(&next_open, edge) {
                                    Some(position) => {
                                        added_value = added_value | ((value as u128) << position);
                                    },
                                    None => {
                                        return Err(message("explicit-C frontier lost an open bond"));
                                    },
                                }
                            },
                        }
                    },
                }
                l = l + 1;
            }
            if fits {
                transitions.push(FrontierTransition { required_mask, required_value, added_value, local_value: entry.value });
            }
            e = e + 1;
        }
        let mut weights: HashMap<u128, u128> = HashMap::new();
        let mut keys: Vec<u128> = Vec::new();
        let mut b: usize = 0;
        while b < boundary.len()
            invariant
                b <= boundary@.len(),
                accepted <= examined,
                transitions@.len() <= 17,
                support_limit >= 1,
                forall|c: int| 0 <= c < carry@.len() ==> (#[trigger] carry@[c]).0 < 128 && carry@[c].1 < 128,
                forall|i: int| 0 <= i < keys@.len() ==> weights@.contains_key(#[trigger] keys@[i]),
                1 <= n <= 21,
                sites@.len() == n * n,
                forall|i: int| 0 <= i < ordering@.len() ==> #[trigger] ordering@[i] < n * n,
                step < ordering@.len(),
                keys@.len() <= support_limit,
                1 <= peak_states <= support_limit,
            decreases boundary@.len() - b,
        {
            let (key, weight) = boundary[b];
            let before = examined;
            examined = examined.saturating_add(17);
            let mut carried: u128 = 0;
            let mut c: usize = 0;
            while c < carry.len()
                invariant
                    c <= carry@.len(),
                    forall|c: int| 0 <= c < carry@.len() ==> (#[trigger] carry@[c]).0 < 128 && carry@[c].1 < 128,
                decreases carry@.len() - c,
            {
                let (from, to) = carry[c];
                carried = carried | (((key >> from) & 1) << to);
                c = c + 1;
            }
            let mut t: usize = 0;
            while t < transitions.len()
                invariant
                    t <= transitions@.len(),
                    transitions@.len() <= 17,
                    examined == before + 17 || examined == u128::MAX,
                    accepted <= before + t || examined == u128::MAX,
                    accepted <= examined,
                    forall|i: int| 0 <= i < keys@.len() ==> weights@.contains_key(#[trigger] keys@[i]),
                    1 <= n <= 21,
                    support_limit >= 1,
                    keys@.len() <= support_limit,
                    1 <= peak_states <= support_limit,
                decreases transitions@.len() - t,
            {
                let transition = transitions[t];
                if key & transition.required_mask == transition.required_value {
                    accepted = accepted.saturating_add(1);
                    let successor = carried | transition.added_value;
                    let contribution = match weight.checked_mul(transition.local_value) {
                        Some(value) => value,
                        None => {
                            return Err(
                                site_message(
                                    "explicit-C coefficient multiplication overflow at site",
                                    site.row,
                                    site.column,
                                ),
                            );
                        },
                    };
                    match weights.get(&successor) {
                        Some(current) => {
                            let sum = match current.checked_add(contribution) {
                                Some(sum) => sum,
                                None => {
                                    return Err(
                                        site_message(
                                            "explicit-C coefficient addition overflow at site",
                                            site.row,
                                            site.column,
                                        ),
                                    );
                                },
                            };
                            weights.insert(successor, sum);
                        },
                        None => {
                            weights.insert(successor, contribution);
                            keys.push(successor);
                        },
                    }
                    if keys.len() > support_limit {
                        let states = keys.len();
                        if states > peak_states {
                            peak_states = states;
                        }
                        if next_open.len() > peak_open_bonds {
                            peak_open_bonds = next_open.len();
                        }
                        return Ok(
                            ExplicitFrontierResult {
                                n,
                                order,
                                complete: false,
                                count: None,
                                elapsed: elapsed(&total_start),
                                peak_states,
                                peak_open_bonds,
                                tensor_entries_examined: examined,
                                tensor_entries_accepted: accepted,
                                contracted_sites: step,
                                peak_rss_bytes: peak_rss_bytes(),
                            },
                        );
                    }
                }
                t = t + 1;
            }
            b = b + 1;
        }
        let mut next_boundary: Vec<(u128, u128)> = Vec::new();
        let mut m: usize = 0;
        while m < keys.len()
            invariant
                m <= keys@.len(),
                forall|i: int| 0 <= i < keys@.len() ==> weights@.contains_key(#[trigger] keys@[i]),
                next_boundary@.len() <= m,
            decreases keys@.len() - m,
        {
            let key = keys[m];
            match weights.get(&key) {
                Some(weight) => {
                    next_boundary.push((key, *weight));
                },
                None => {},
            }
            m = m + 1;
        }
        boundary = next_boundary;
        open_edges = next_open;
        if boundary.len() > peak_states {
            peak_states = boundary.len();
        }
        if open_edges.len() > peak_open_bonds {
            peak_open_bonds = open_edges.len();
        }
        step = step + 1;
    }
    if open_edges.len() != 0 {
        return Err(message("explicit-C contraction ended with uncontracted virtual bonds"));
    }
    proof {
        assert(n * n <= 441) by (nonlinear_arith)
            requires
                n <= 21,
        ;
    }
    let mut count: u128 = 0;
    let mut z: usize = 0;
    while z < boundary.len()
        invariant
            z <= boundary@.len(),
        decreases boundary@.len() - z,
    {
        if boundary[z].0 == 0 {
            count = boundary[z].1;
        }
        z = z + 1;
    }
    Ok(
        ExplicitFrontierResult {
            n,
            order,
            complete: true,
            count: Some(count),
            elapsed: elapsed(&total_start),
            peak_states,
            peak_open_bonds,
            tensor_entries_examined: examined,
            tensor_entries_accepted: accepted,
            contracted_sites: n * n,
            peak_rss_bytes: peak_rss_bytes(),
        },
    )
}

} // verus!
