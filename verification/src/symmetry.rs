//! The dihedral group D4 acting on the square board, on the four constraint
//! families, and on the virtual legs of the local tensors.
use vstd::prelude::*;

use crate::tensor::{VirtualLegs, sec_vi_b, sec_vi_c};

verus! {

/// The eight automorphisms of the square board.
#[derive(Clone, Copy, Debug, PartialEq, Eq, Structural)]
pub enum D4Symmetry {
    Identity,
    Rotate90,
    Rotate180,
    Rotate270,
    ReflectVertical,
    ReflectHorizontal,
    ReflectMainDiagonal,
    ReflectAntiDiagonal,
}

#[derive(Clone, Copy, Debug, PartialEq, Eq, Structural)]
pub enum ConstraintFamily {
    Row,
    Column,
    DiagDownRight,
    DiagDownLeft,
}

/// Image of the cell `(row, column)` of an `n`-by-`n` board.
pub open spec fn transform_coordinate_spec(symmetry: D4Symmetry, n: int, row: int, column: int) -> (
    int,
    int,
) {
    match symmetry {
        D4Symmetry::Identity => (row, column),
        D4Symmetry::Rotate90 => (column, n - 1 - row),
        D4Symmetry::Rotate180 => (n - 1 - row, n - 1 - column),
        D4Symmetry::Rotate270 => (n - 1 - column, row),
        D4Symmetry::ReflectVertical => (row, n - 1 - column),
        D4Symmetry::ReflectHorizontal => (n - 1 - row, column),
        D4Symmetry::ReflectMainDiagonal => (column, row),
        D4Symmetry::ReflectAntiDiagonal => (n - 1 - column, n - 1 - row),
    }
}

/// The inverse board action.
pub open spec fn inverse_spec(symmetry: D4Symmetry) -> D4Symmetry {
    match symmetry {
        D4Symmetry::Rotate90 => D4Symmetry::Rotate270,
        D4Symmetry::Rotate270 => D4Symmetry::Rotate90,
        other => other,
    }
}

/// Whether the action swaps the row and column directions.
pub open spec fn swaps_axes(symmetry: D4Symmetry) -> bool {
    match symmetry {
        D4Symmetry::Rotate90 | D4Symmetry::Rotate270 | D4Symmetry::ReflectMainDiagonal
        | D4Symmetry::ReflectAntiDiagonal => true,
        _ => false,
    }
}

/// Whether the action exchanges the two diagonal directions.
pub open spec fn swaps_diagonals(symmetry: D4Symmetry) -> bool {
    match symmetry {
        D4Symmetry::Rotate90 | D4Symmetry::Rotate270 | D4Symmetry::ReflectVertical
        | D4Symmetry::ReflectHorizontal => true,
        _ => false,
    }
}

/// The family of lines onto which the action maps the lines of `family`.
pub open spec fn transform_family_spec(symmetry: D4Symmetry, family: ConstraintFamily) -> ConstraintFamily {
    match family {
        ConstraintFamily::Row => if swaps_axes(symmetry) {
            ConstraintFamily::Column
        } else {
            ConstraintFamily::Row
        },
        ConstraintFamily::Column => if swaps_axes(symmetry) {
            ConstraintFamily::Row
        } else {
            ConstraintFamily::Column
        },
        ConstraintFamily::DiagDownRight => if swaps_diagonals(symmetry) {
            ConstraintFamily::DiagDownLeft
        } else {
            ConstraintFamily::DiagDownRight
        },
        ConstraintFamily::DiagDownLeft => if swaps_diagonals(symmetry) {
            ConstraintFamily::DiagDownRight
        } else {
            ConstraintFamily::DiagDownLeft
        },
    }
}

/// The (incoming, outgoing) pair of one channel of `legs`.
pub open spec fn channel_spec(legs: VirtualLegs, family: ConstraintFamily) -> (u8, u8) {
    match family {
        ConstraintFamily::Row => (legs.row_in, legs.row_out),
        ConstraintFamily::Column => (legs.column_in, legs.column_out),
        ConstraintFamily::DiagDownRight => (legs.diag_dr_in, legs.diag_dr_out),
        ConstraintFamily::DiagDownLeft => (legs.diag_dl_in, legs.diag_dl_out),
    }
}

/// Whether `(row, column)` lies in the contracted prefix `[0, cut)` exactly when
/// its image does, for every cell.
pub open spec fn stabilizes_spec(symmetry: D4Symmetry, n: int, cut: int) -> bool {
    forall|row: int, column: int|
        0 <= row < n && 0 <= column < n ==> ((row < cut) == (#[trigger] transform_coordinate_spec(
            symmetry,
            n,
            row,
            column,
        ).0 < cut))
}

fn channel(legs: VirtualLegs, family: ConstraintFamily) -> (pair: (u8, u8))
    ensures
        pair == channel_spec(legs, family),
{
    match family {
        ConstraintFamily::Row => (legs.row_in, legs.row_out),
        ConstraintFamily::Column => (legs.column_in, legs.column_out),
        ConstraintFamily::DiagDownRight => (legs.diag_dr_in, legs.diag_dr_out),
        ConstraintFamily::DiagDownLeft => (legs.diag_dl_in, legs.diag_dl_out),
    }
}

fn set_channel(legs: &mut VirtualLegs, family: ConstraintFamily, pair: (u8, u8))
    ensures
        channel_spec(*final(legs), family) == pair,
        forall|other: ConstraintFamily|
            other != family ==> channel_spec(*final(legs), other) == channel_spec(*old(legs), other),
{
    let (incoming, outgoing) = pair;
    match family {
        ConstraintFamily::Row => {
            legs.row_in = incoming;
            legs.row_out = outgoing;
        },
        ConstraintFamily::Column => {
            legs.column_in = incoming;
            legs.column_out = outgoing;
        },
        ConstraintFamily::DiagDownRight => {
            legs.diag_dr_in = incoming;
            legs.diag_dr_out = outgoing;
        },
        ConstraintFamily::DiagDownLeft => {
            legs.diag_dl_in = incoming;
            legs.diag_dl_out = outgoing;
        },
    }
}

impl D4Symmetry {
    pub const ALL: [D4Symmetry; 8] = [
        D4Symmetry::Identity,
        D4Symmetry::Rotate90,
        D4Symmetry::Rotate180,
        D4Symmetry::Rotate270,
        D4Symmetry::ReflectVertical,
        D4Symmetry::ReflectHorizontal,
        D4Symmetry::ReflectMainDiagonal,
        D4Symmetry::ReflectAntiDiagonal,
    ];

    pub fn transform_coordinate(self, n: usize, row: usize, column: usize) -> (cell: (usize, usize))
        requires
            row < n,
            column < n,
        ensures
            cell.0 == transform_coordinate_spec(self, n as int, row as int, column as int).0,
            cell.1 == transform_coordinate_spec(self, n as int, row as int, column as int).1,
    {
        match self {
            D4Symmetry::Identity => (row, column),
            D4Symmetry::Rotate90 => (column, n - 1 - row),
            D4Symmetry::Rotate180 => (n - 1 - row, n - 1 - column),
            D4Symmetry::Rotate270 => (n - 1 - column, row),
            D4Symmetry::ReflectVertical => (row, n - 1 - column),
            D4Symmetry::ReflectHorizontal => (n - 1 - row, column),
            D4Symmetry::ReflectMainDiagonal => (column, row),
            D4Symmetry::ReflectAntiDiagonal => (n - 1 - column, n - 1 - row),
        }
    }

    /// Whether this action maps the already-contracted row prefix `[0, cut)`
    /// to itself as a set.
    pub fn stabilizes_top_row_cut(self, n: usize, cut: usize) -> (stable: bool)
        requires
            cut <= n,
        ensures
            stable == stabilizes_spec(self, n as int, cut as int),
    {
        let mut row: usize = 0;
        while row < n
            invariant
                row <= n,
                cut <= n,
                forall|r: int, c: int|
                    0 <= r < row && 0 <= c < n ==> ((r < cut) == (
                    #[trigger] transform_coordinate_spec(self, n as int, r, c).0 < cut)),
            decreases n - row,
        {
            let mut column: usize = 0;
            while column < n
                invariant
                    row < n,
                    column <= n,
                    cut <= n,
                    forall|r: int, c: int|
                        0 <= r < row && 0 <= c < n ==> ((r < cut) == (
                        #[trigger] transform_coordinate_spec(self, n as int, r, c).0 < cut)),
                    forall|c: int|
                        0 <= c < column ==> ((row < cut) == (
                        #[trigger] transform_coordinate_spec(self, n as int, row as int, c).0
                            < cut)),
                decreases n - column,
            {
                let (mapped_row, _) = self.transform_coordinate(n, row, column);
                if (row < cut) != (mapped_row < cut) {
                    return false;
                }
                column = column + 1;
            }
            row = row + 1;
        }
        true
    }

    pub fn transform_constraint_family(self, family: ConstraintFamily) -> (image: ConstraintFamily)
        ensures
            image == transform_family_spec(self, family),
    {
        match (self, family) {
            (
                D4Symmetry::Identity
                | D4Symmetry::Rotate180
                | D4Symmetry::ReflectVertical
                | D4Symmetry::ReflectHorizontal,
                ConstraintFamily::Row,
            ) => ConstraintFamily::Row,
            (
                D4Symmetry::Identity
                | D4Symmetry::Rotate180
                | D4Symmetry::ReflectVertical
                | D4Symmetry::ReflectHorizontal,
                ConstraintFamily::Column,
            ) => ConstraintFamily::Column,
            (
                D4Symmetry::Rotate90
                | D4Symmetry::Rotate270
                | D4Symmetry::ReflectMainDiagonal
                | D4Symmetry::ReflectAntiDiagonal,
                ConstraintFamily::Row,
            ) => ConstraintFamily::Column,
            (
                D4Symmetry::Rotate90
                | D4Symmetry::Rotate270
                | D4Symmetry::ReflectMainDiagonal
                | D4Symmetry::ReflectAntiDiagonal,
                ConstraintFamily::Column,
            ) => ConstraintFamily::Row,
            (
                D4Symmetry::Rotate90
                | D4Symmetry::Rotate270
                | D4Symmetry::ReflectVertical
                | D4Symmetry::ReflectHorizontal,
                ConstraintFamily::DiagDownRight,
            ) => ConstraintFamily::DiagDownLeft,
            (
                D4Symmetry::Rotate90
                | D4Symmetry::Rotate270
                | D4Symmetry::ReflectVertical
                | D4Symmetry::ReflectHorizontal,
                ConstraintFamily::DiagDownLeft,
            ) => ConstraintFamily::DiagDownRight,
            (
                D4Symmetry::Identity
                | D4Symmetry::Rotate180
                | D4Symmetry::ReflectMainDiagonal
                | D4Symmetry::ReflectAntiDiagonal,
                diagonal,
            ) => diagonal,
        }
    }

    /// Permute the four directed channel pairs under this board action.
    ///
    /// Each mapped constraint line is oriented so that the transformed start
    /// endpoint still carries v0 and the transformed end carries v1/v2.
    /// Thus `in` and `out` move together; this is the allowed simultaneous
    /// reversal of a line and its boundary endpoints.
    pub fn transform_virtual_legs(self, legs: VirtualLegs) -> (transformed: VirtualLegs)
        ensures
            forall|family: ConstraintFamily|
                #[trigger] channel_spec(transformed, transform_family_spec(self, family))
                    == channel_spec(legs, family),
    {
        let mut transformed = VirtualLegs {
            column_in: 0,
            column_out: 0,
            row_in: 0,
            row_out: 0,
            diag_dr_in: 0,
            diag_dr_out: 0,
            diag_dl_in: 0,
            diag_dl_out: 0,
        };
        let families = [
            ConstraintFamily::Row,
            ConstraintFamily::Column,
            ConstraintFamily::DiagDownRight,
            ConstraintFamily::DiagDownLeft,
        ];
        let mut i: usize = 0;
        while i < 4
            invariant
                i <= 4,
                families@ == seq![
                    ConstraintFamily::Row,
                    ConstraintFamily::Column,
                    ConstraintFamily::DiagDownRight,
                    ConstraintFamily::DiagDownLeft,
                ],
                forall|j: int|
                    0 <= j < i ==> #[trigger] channel_spec(
                        transformed,
                        transform_family_spec(self, families@[j]),
                    ) == channel_spec(legs, families@[j]),
            decreases 4 - i,
        {
            let family = families[i];
            set_channel(
                &mut transformed,
                self.transform_constraint_family(family),
                channel(legs, family),
            );
            i = i + 1;
        }
        assert forall|family: ConstraintFamily|
            #[trigger] channel_spec(transformed, transform_family_spec(self, family))
                == channel_spec(legs, family) by {
            let j: int = match family {
                ConstraintFamily::Row => 0,
                ConstraintFamily::Column => 1,
                ConstraintFamily::DiagDownRight => 2,
                ConstraintFamily::DiagDownLeft => 3,
            };
            assert(families@[j] == family);
        }
        transformed
    }
}

/// The image under `symmetry` of the pass-through signals `s`: channel values
/// travel with their constraint families.
pub open spec fn permuted_signals(symmetry: D4Symmetry, s: int) -> int {
    let column = s % 2;
    let row = (s / 2) % 2;
    let dr = (s / 4) % 2;
    let dl = (s / 8) % 2;
    let (column2, row2) = if swaps_axes(symmetry) {
        (row, column)
    } else {
        (column, row)
    };
    let (dr2, dl2) = if swaps_diagonals(symmetry) {
        (dl, dr)
    } else {
        (dr, dl)
    };
    column2 + 2 * row2 + 4 * dr2 + 8 * dl2
}

/// The legs whose channels are those of `legs` moved by `symmetry`.
pub open spec fn transformed_legs(symmetry: D4Symmetry, legs: VirtualLegs) -> VirtualLegs {
    let (column, row) = if swaps_axes(symmetry) {
        (channel_spec(legs, ConstraintFamily::Row), channel_spec(legs, ConstraintFamily::Column))
    } else {
        (channel_spec(legs, ConstraintFamily::Column), channel_spec(legs, ConstraintFamily::Row))
    };
    let (dr, dl) = if swaps_diagonals(symmetry) {
        (
            channel_spec(legs, ConstraintFamily::DiagDownLeft),
            channel_spec(legs, ConstraintFamily::DiagDownRight),
        )
    } else {
        (
            channel_spec(legs, ConstraintFamily::DiagDownRight),
            channel_spec(legs, ConstraintFamily::DiagDownLeft),
        )
    };
    VirtualLegs {
        column_in: column.0,
        column_out: column.1,
        row_in: row.0,
        row_out: row.1,
        diag_dr_in: dr.0,
        diag_dr_out: dr.1,
        diag_dl_in: dl.0,
        diag_dl_out: dl.1,
    }
}

/// The channel permutation determines the transformed legs completely.
pub proof fn lemma_transformed_legs_unique(symmetry: D4Symmetry, legs: VirtualLegs, image: VirtualLegs)
    requires
        forall|family: ConstraintFamily|
            #[trigger] channel_spec(image, transform_family_spec(symmetry, family)) == channel_spec(
                legs,
                family,
            ),
    ensures
        image == transformed_legs(symmetry, legs),
{
    let r = channel_spec(image, transform_family_spec(symmetry, ConstraintFamily::Row));
    let c = channel_spec(image, transform_family_spec(symmetry, ConstraintFamily::Column));
    let d = channel_spec(image, transform_family_spec(symmetry, ConstraintFamily::DiagDownRight));
    let e = channel_spec(image, transform_family_spec(symmetry, ConstraintFamily::DiagDownLeft));
}

/// Every D4 action maps each of the seventeen entries of `B` to an entry of
/// `B` with the same physical index and value: the local tensor is invariant.
pub proof fn lemma_b_invariant_under_d4(symmetry: D4Symmetry, i: int)
    requires
        0 <= i < 17,
    ensures
        exists|j: int|
            0 <= j < 17 && (#[trigger] sec_vi_b()[j]).alpha == sec_vi_b()[i].alpha
                && sec_vi_b()[j].value == sec_vi_b()[i].value && sec_vi_b()[j].legs
                == transformed_legs(symmetry, sec_vi_b()[i].legs),
{
    if i < 16 {
        let j = permuted_signals(symmetry, i);
        assert(i == 0 || i == 1 || i == 2 || i == 3 || i == 4 || i == 5 || i == 6 || i == 7 || i
            == 8 || i == 9 || i == 10 || i == 11 || i == 12 || i == 13 || i == 14 || i == 15);
        assert(0 <= j < 16);
        assert(sec_vi_b()[j].legs == transformed_legs(symmetry, sec_vi_b()[i].legs));
    } else {
        assert(sec_vi_b()[16].legs == transformed_legs(symmetry, sec_vi_b()[16].legs));
    }
}

/// Every D4 action maps each entry of `C` to an entry of `C` with the same
/// value: the counting tensor is invariant.
pub proof fn lemma_c_invariant_under_d4(symmetry: D4Symmetry, i: int)
    requires
        0 <= i < 17,
    ensures
        exists|j: int|
            0 <= j < 17 && (#[trigger] sec_vi_c()[j]).value == sec_vi_c()[i].value
                && sec_vi_c()[j].legs == transformed_legs(symmetry, sec_vi_c()[i].legs),
{
    if i < 8 || i > 8 {
        let s = if i < 8 {
            i
        } else {
            i - 1
        };
        assert(s == 0 || s == 1 || s == 2 || s == 3 || s == 4 || s == 5 || s == 6 || s == 7 || s
            == 8 || s == 9 || s == 10 || s == 11 || s == 12 || s == 13 || s == 14 || s == 15);
        let t = permuted_signals(symmetry, s);
        let j = if t < 8 {
            t
        } else {
            t + 1
        };
        assert(sec_vi_c()[j].legs == transformed_legs(symmetry, sec_vi_c()[i].legs));
    } else {
        assert(sec_vi_c()[8].legs == transformed_legs(symmetry, sec_vi_c()[8].legs));
    }
}

/// Every D4 action is a bijection of the `n`-by-`n` board: applying the inverse
/// action to the image gives back the cell.
pub proof fn lemma_d4_action_is_bijection(symmetry: D4Symmetry, n: int, row: int, column: int)
    requires
        0 <= row < n,
        0 <= column < n,
    ensures
        0 <= transform_coordinate_spec(symmetry, n, row, column).0 < n,
        0 <= transform_coordinate_spec(symmetry, n, row, column).1 < n,
        transform_coordinate_spec(
            inverse_spec(symmetry),
            n,
            transform_coordinate_spec(symmetry, n, row, column).0,
            transform_coordinate_spec(symmetry, n, row, column).1,
        ) == (row, column),
{
}

/// Two cells that do not attack each other (distinct rows, columns and
/// diagonals) still do not after any D4 action, so solutions map to solutions.
pub proof fn lemma_d4_preserves_non_attacking(
    symmetry: D4Symmetry,
    n: int,
    r1: int,
    c1: int,
    r2: int,
    c2: int,
)
    requires
        0 <= r1 < n,
        0 <= c1 < n,
        0 <= r2 < n,
        0 <= c2 < n,
        r1 != r2,
        c1 != c2,
        r1 - r2 != c1 - c2,
        r1 - r2 != c2 - c1,
    ensures
        ({
            let (a1, b1) = transform_coordinate_spec(symmetry, n, r1, c1);
            let (a2, b2) = transform_coordinate_spec(symmetry, n, r2, c2);
            a1 != a2 && b1 != b2 && a1 - a2 != b1 - b2 && a1 - a2 != b2 - b1
        }),
{
}

/// Only the identity and the vertical reflection map an interior row cut
/// `[0, cut)` to itself.
pub proof fn lemma_row_cut_stabilizer(symmetry: D4Symmetry, n: int, cut: int)
    requires
        2 <= n,
        1 <= cut < n,
    ensures
        stabilizes_spec(symmetry, n, cut) <==> (symmetry == D4Symmetry::Identity || symmetry
            == D4Symmetry::ReflectVertical),
{
    match symmetry {
        D4Symmetry::Identity | D4Symmetry::ReflectVertical => {},
        D4Symmetry::Rotate90 => {
            // cell (0, cut) maps to row cut; cell (0, 0) maps to row 0 with row 0 < cut.
            if cut < n {
                assert(transform_coordinate_spec(symmetry, n, 0, cut).0 == cut);
            }
        },
        D4Symmetry::Rotate180 | D4Symmetry::ReflectHorizontal => {
            assert(transform_coordinate_spec(symmetry, n, 0, 0).0 == n - 1);
        },
        D4Symmetry::Rotate270 => {
            assert(transform_coordinate_spec(symmetry, n, 0, 0).0 == n - 1);
        },
        D4Symmetry::ReflectMainDiagonal => {
            assert(transform_coordinate_spec(symmetry, n, 0, cut).0 == cut);
        },
        D4Symmetry::ReflectAntiDiagonal => {
            assert(transform_coordinate_spec(symmetry, n, 0, 0).0 == n - 1);
        },
    }
}

} // verus!
