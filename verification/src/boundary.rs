//! Row-frontier states of the PEPS contraction and their packed `u128` keys.
use vstd::prelude::*;

verus! {

/// The open virtual indices between two rows.
#[derive(Clone, Copy, Debug, PartialEq, Eq, Hash, Structural)]
pub struct BoundaryState {
    /// Signals entering the next row from the column channels.
    pub columns: u64,
    /// Signals entering along diagonals directed top-left to bottom-right.
    pub diag_dr: u64,
    /// Signals entering along diagonals directed top-right to bottom-left.
    pub diag_dl: u64,
}

/// The low `n` bits.
pub open spec fn board_mask_spec(n: nat) -> u64 {
    ((1u64 << (n as u64)) - 1u64) as u64
}

/// Bit `index` of `mask` is set.
pub open spec fn has_bit(mask: u64, index: nat) -> bool {
    (mask >> (index as u64)) & 1u64 == 1u64
}

/// No signal lies outside the `n` columns of the board.
pub open spec fn state_fits(state: BoundaryState, n: nat) -> bool {
    &&& state.columns >> (n as u64) == 0
    &&& state.diag_dr >> (n as u64) == 0
    &&& state.diag_dl >> (n as u64) == 0
}

/// The frontier before the first row: no signal anywhere.
pub open spec fn empty_state() -> BoundaryState {
    BoundaryState { columns: 0, diag_dr: 0, diag_dl: 0 }
}

/// The low `n` bits, as used by the row transfer.
pub fn board_mask(n: usize) -> (mask: u64)
    requires
        n < 64,
    ensures
        mask == board_mask_spec(n as nat),
{
    let m = n as u64;
    assert(1u64 << m >= 1) by (bit_vector)
        requires
            m < 64,
    ;
    (1u64 << m) - 1
}

/// Bit `index` of `mask`, as 0 or 1.
pub fn bit(mask: u64, index: usize) -> (value: u8)
    requires
        index < 64,
    ensures
        value <= 1,
        (value == 1) == has_bit(mask, index as nat),
{
    let i = index as u64;
    assert(((mask >> i) & 1u64) <= 1u64) by (bit_vector);
    ((mask >> i) & 1u64) as u8
}

/// Set bit `index` of `mask` when `value` is 1.
pub fn set_bit(mask: &mut u64, index: usize, value: u8)
    requires
        index < 64,
    ensures
        *final(mask) == if value == 1 {
            *old(mask) | (1u64 << (index as u64))
        } else {
            *old(mask)
        },
{
    if value == 1 {
        *mask = *mask | (1u64 << (index as u64));
    }
}

/// `mask` with bit `index` replaced by `value`.
pub fn replace_bit(mask: u64, index: usize, value: u8) -> (replaced: u64)
    requires
        index < 64,
        value <= 1,
    ensures
        value == 1 ==> replaced == mask | (1u64 << (index as u64)),
        value == 0 ==> replaced == mask & !(1u64 << (index as u64)),
{
    let i = index as u64;
    let v = value as u64;
    let selected = 1u64 << i;
    assert(v == 1 ==> (mask & !selected) | (v << i) == mask | selected) by (bit_vector)
        requires
            selected == 1u64 << i,
            i < 64,
    ;
    assert(v == 0 ==> (mask & !selected) | (v << i) == mask & !selected) by (bit_vector);
    (mask & !selected) | (v << i)
}

/// Packed hash key for the three groups of open virtual indices.
///
/// For a board of width `n`, bits `[0,n)`, `[n,2n)`, and `[2n,3n)` store
/// column, down-right diagonal, and down-left diagonal signals respectively.
#[derive(Clone, Copy, Debug, PartialEq, Eq, Hash, Structural)]
pub struct PackedBoundary(pub u128);

/// The key of `state` on a board of width `n`.
pub open spec fn pack_spec(state: BoundaryState, n: nat) -> u128 {
    (state.columns as u128) | ((state.diag_dr as u128) << (n as u128)) | ((state.diag_dl as u128)
        << (2 * n) as u128)
}

/// The state stored in the key `key` on a board of width `n`.
pub open spec fn unpack_spec(key: u128, n: nat) -> BoundaryState {
    let mask = ((1u128 << (n as u128)) - 1u128) as u128;
    BoundaryState {
        columns: (key & mask) as u64,
        diag_dr: ((key >> (n as u128)) & mask) as u64,
        diag_dl: ((key >> (2 * n) as u128) & mask) as u64,
    }
}

/// Unpacking a packed state gives the state back, and every unpacked state
/// fits the board.
pub proof fn lemma_pack_round_trip(state: BoundaryState, n: nat)
    requires
        n <= 42,
        state_fits(state, n),
    ensures
        unpack_spec(pack_spec(state, n), n) == state,
{
    let c = state.columns;
    let d = state.diag_dr;
    let e = state.diag_dl;
    let m = n as u128;
    let m2 = (2 * n) as u128;
    let nn = n as u64;
    assert(c >> nn == 0 && d >> nn == 0 && e >> nn == 0);
    assert(((c as u128) | ((d as u128) << m) | ((e as u128) << m2)) & (((1u128 << m) - 1u128) as u128)
        == c as u128) by (bit_vector)
        requires
            m <= 42,
            m2 == 2 * m,
            nn == m,
            c >> nn == 0,
    ;
    assert((((c as u128) | ((d as u128) << m) | ((e as u128) << m2)) >> m) & (((1u128 << m)
        - 1u128) as u128) == d as u128) by (bit_vector)
        requires
            m <= 42,
            m2 == 2 * m,
            nn == m,
            c >> nn == 0,
            d >> nn == 0,
    ;
    assert((((c as u128) | ((d as u128) << m) | ((e as u128) << m2)) >> m2) & (((1u128 << m)
        - 1u128) as u128) == e as u128) by (bit_vector)
        requires
            m <= 42,
            m2 == 2 * m,
            nn == m,
            c >> nn == 0,
            d >> nn == 0,
            e >> nn == 0,
    ;
}

/// Every unpacked state fits the board.
pub proof fn lemma_unpack_fits(key: u128, n: nat)
    requires
        n <= 42,
    ensures
        state_fits(unpack_spec(key, n), n),
{
    let m = n as u128;
    let m2 = (2 * n) as u128;
    let nn = n as u64;
    let mask = ((1u128 << m) - 1u128) as u128;
    assert(((key & mask) as u64) >> nn == 0 && (((key >> m) & mask) as u64) >> nn == 0 && (((key
        >> m2) & mask) as u64) >> nn == 0) by (bit_vector)
        requires
            m <= 42,
            nn == m,
            mask == ((1u128 << m) - 1u128) as u128,
    ;
}

impl PackedBoundary {
    pub fn pack(state: BoundaryState, n: usize) -> (packed: Self)
        requires
            n <= 42,
        ensures
            packed.0 == pack_spec(state, n as nat),
    {
        let m = n as u128;
        let m2 = (2 * n) as u128;
        PackedBoundary((state.columns as u128) | ((state.diag_dr as u128) << m) | ((
        state.diag_dl as u128) << m2))
    }

    pub fn unpack(self, n: usize) -> (state: BoundaryState)
        requires
            n <= 42,
        ensures
            state == unpack_spec(self.0, n as nat),
            state_fits(state, n as nat),
    {
        proof {
            lemma_unpack_fits(self.0, n as nat);
        }
        let m = n as u128;
        let m2 = (2 * n) as u128;
        assert(1u128 << m >= 1) by (bit_vector)
            requires
                m <= 42,
        ;
        let mask = (1u128 << m) - 1;
        BoundaryState {
            columns: (self.0 & mask) as u64,
            diag_dr: ((self.0 >> m) & mask) as u64,
            diag_dl: ((self.0 >> m2) & mask) as u64,
        }
    }

    /// The column signals stored in the key.
    pub fn columns(self, n: usize) -> (columns: u64)
        requires
            n <= 42,
        ensures
            columns == unpack_spec(self.0, n as nat).columns,
    {
        let m = n as u128;
        assert(1u128 << m >= 1) by (bit_vector)
            requires
                m <= 42,
        ;
        let mask = (1u128 << m) - 1;
        (self.0 & mask) as u64
    }
}

} // verus!
