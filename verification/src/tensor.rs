//! The explicit Sec. VI local tensors: the rank-9 tensor `B` with its
//! seventeen non-zero entries and the rank-8 counting tensor `C` obtained by
//! summing `B` over its physical index.
use vstd::prelude::*;

verus! {

/// The eight binary virtual legs of one lattice site.
#[derive(Clone, Copy, Debug, PartialEq, Eq, Hash, Structural)]
pub struct VirtualLegs {
    pub column_in: u8,
    pub column_out: u8,
    pub row_in: u8,
    pub row_out: u8,
    pub diag_dr_in: u8,
    pub diag_dr_out: u8,
    pub diag_dl_in: u8,
    pub diag_dl_out: u8,
}

#[derive(Clone, Copy, Debug, PartialEq, Eq, Structural)]
pub struct BEntry {
    pub alpha: u8,
    pub legs: VirtualLegs,
    pub value: u128,
}

#[derive(Clone, Copy, Debug, PartialEq, Eq, Structural)]
pub struct CEntry {
    pub legs: VirtualLegs,
    pub value: u128,
}

/// Every leg of `legs` carries 0 or 1.
pub open spec fn legs_binary(legs: VirtualLegs) -> bool {
    &&& legs.column_in <= 1
    &&& legs.column_out <= 1
    &&& legs.row_in <= 1
    &&& legs.row_out <= 1
    &&& legs.diag_dr_in <= 1
    &&& legs.diag_dr_out <= 1
    &&& legs.diag_dl_in <= 1
    &&& legs.diag_dl_out <= 1
}

/// The empty pass-through legs for the four incoming signals packed in `s`
/// (bit 0: column, bit 1: row, bit 2: down-right, bit 3: down-left).
pub open spec fn pass_legs(s: int) -> VirtualLegs {
    VirtualLegs {
        column_in: (s % 2) as u8,
        column_out: (s % 2) as u8,
        row_in: ((s / 2) % 2) as u8,
        row_out: ((s / 2) % 2) as u8,
        diag_dr_in: ((s / 4) % 2) as u8,
        diag_dr_out: ((s / 4) % 2) as u8,
        diag_dl_in: ((s / 8) % 2) as u8,
        diag_dl_out: ((s / 8) % 2) as u8,
    }
}

/// The occupied entry: every channel goes from 0 to 1.
pub open spec fn occupied_legs() -> VirtualLegs {
    VirtualLegs {
        column_in: 0,
        column_out: 1,
        row_in: 0,
        row_out: 1,
        diag_dr_in: 0,
        diag_dr_out: 1,
        diag_dl_in: 0,
        diag_dl_out: 1,
    }
}

/// Eq. (16): sixteen empty pass-through entries followed by the occupied one.
pub open spec fn sec_vi_b() -> Seq<BEntry> {
    Seq::new(
        17,
        |i: int|
            if i < 16 {
                BEntry { alpha: 0, legs: pass_legs(i), value: 1 }
            } else {
                BEntry { alpha: 1, legs: occupied_legs(), value: 1 }
            },
    )
}

/// The packed key `legs_key` of a binary leg assignment.
pub open spec fn legs_key_spec(legs: VirtualLegs) -> int {
    legs.column_in + 2 * legs.column_out + 4 * legs.row_in + 8 * legs.row_out + 16
        * legs.diag_dr_in + 32 * legs.diag_dr_out + 64 * legs.diag_dl_in + 128 * legs.diag_dl_out
}

/// The packed key `input_key` of the four incoming signals.
pub open spec fn input_key_spec(legs: VirtualLegs) -> int {
    legs.column_in + 2 * legs.row_in + 4 * legs.diag_dr_in + 8 * legs.diag_dl_in
}

/// The seventeen entries of `C`: the pass-through entries in signal order with
/// the occupied entry placed by its packed key, between signals 7 and 8.
pub open spec fn sec_vi_c() -> Seq<CEntry> {
    Seq::new(
        17,
        |i: int|
            if i < 8 {
                CEntry { legs: pass_legs(i), value: 1 }
            } else if i == 8 {
                CEntry { legs: occupied_legs(), value: 1 }
            } else {
                CEntry { legs: pass_legs(i - 1), value: 1 }
            },
    )
}

/// The entries among the first `i` of `c` whose incoming signals have key `k`.
pub open spec fn matching_prefix(c: Seq<CEntry>, i: int, k: int) -> Seq<CEntry>
    decreases i,
{
    if i <= 0 {
        Seq::empty()
    } else {
        matching_prefix(c, i - 1, k) + if input_key_spec(c[i - 1].legs) == k {
            seq![c[i - 1]]
        } else {
            Seq::empty()
        }
    }
}

/// The entries of `C` whose incoming signals have key `k`.
pub open spec fn c_matching(k: int) -> Seq<CEntry> {
    matching_prefix(sec_vi_c(), 17, k)
}

/// The explicit rank-9 tensor `B`.
#[derive(Debug)]
pub struct SiteTensorB {
    entries: Vec<BEntry>,
}

impl SiteTensorB {
    #[verifier::type_invariant]
    spec fn inv(self) -> bool {
        self.entries@ == sec_vi_b()
    }

    pub closed spec fn spec_entries(self) -> Seq<BEntry> {
        self.entries@
    }

    /// Construct Eq. (16): 16 empty pass-through entries and one occupied
    /// signal-emission entry.
    pub fn sec_vi() -> (tensor: Self)
        ensures
            tensor.spec_entries() == sec_vi_b(),
    {
        let mut entries: Vec<BEntry> = Vec::with_capacity(17);
        let mut signals: u8 = 0;
        while signals < 16
            invariant
                signals <= 16,
                entries@.len() == signals,
                forall|i: int| 0 <= i < signals ==> entries@[i] == sec_vi_b()[i],
            decreases 16 - signals,
        {
            let column = signals & 1;
            let row = (signals >> 1) & 1;
            let diag_dr = (signals >> 2) & 1;
            let diag_dl = (signals >> 3) & 1;
            assert(column == signals % 2 && row == (signals / 2) % 2 && diag_dr == (signals / 4)
                % 2 && diag_dl == (signals / 8) % 2) by (bit_vector)
                requires
                    column == signals & 1,
                    row == (signals >> 1) & 1,
                    diag_dr == (signals >> 2) & 1,
                    diag_dl == (signals >> 3) & 1,
            ;
            entries.push(
                BEntry {
                    alpha: 0,
                    legs: VirtualLegs {
                        column_in: column,
                        column_out: column,
                        row_in: row,
                        row_out: row,
                        diag_dr_in: diag_dr,
                        diag_dr_out: diag_dr,
                        diag_dl_in: diag_dl,
                        diag_dl_out: diag_dl,
                    },
                    value: 1,
                },
            );
            signals = signals + 1;
        }
        entries.push(
            BEntry {
                alpha: 1,
                legs: VirtualLegs {
                    column_in: 0,
                    column_out: 1,
                    row_in: 0,
                    row_out: 1,
                    diag_dr_in: 0,
                    diag_dr_out: 1,
                    diag_dl_in: 0,
                    diag_dl_out: 1,
                },
                value: 1,
            },
        );
        assert(entries@ =~= sec_vi_b());
        SiteTensorB { entries }
    }

    pub fn entries(&self) -> (entries: &[BEntry])
        ensures
            entries@ == self.spec_entries(),
            entries@ == sec_vi_b(),
    {
        proof {
            use_type_invariant(self);
        }
        self.entries.as_slice()
    }
}

/// Packed key of the four incoming signals.
pub fn input_key(column_in: u8, row_in: u8, diag_dr_in: u8, diag_dl_in: u8) -> (key: usize)
    requires
        column_in <= 1,
        row_in <= 1,
        diag_dr_in <= 1,
        diag_dl_in <= 1,
    ensures
        key == column_in + 2 * row_in + 4 * diag_dr_in + 8 * diag_dl_in,
        key < 16,
{
    let a = column_in as usize;
    let b = row_in as usize;
    let c = diag_dr_in as usize;
    let d = diag_dl_in as usize;
    assert(a | (b << 1usize) | (c << 2usize) | (d << 3usize) == a + 2 * b + 4 * c + 8 * d)
        by (bit_vector)
        requires
            a <= 1,
            b <= 1,
            c <= 1,
            d <= 1,
    ;
    a | (b << 1usize) | (c << 2usize) | (d << 3usize)
}

/// Packed key of all eight legs, used to order the entries of `C`.
pub fn legs_key(legs: VirtualLegs) -> (key: u16)
    requires
        legs_binary(legs),
    ensures
        key == legs_key_spec(legs),
        key < 256,
{
    let a = legs.column_in as u16;
    let b = legs.column_out as u16;
    let c = legs.row_in as u16;
    let d = legs.row_out as u16;
    let e = legs.diag_dr_in as u16;
    let f = legs.diag_dr_out as u16;
    let g = legs.diag_dl_in as u16;
    let h = legs.diag_dl_out as u16;
    assert(a | (b << 1u16) | (c << 2u16) | (d << 3u16) | (e << 4u16) | (f << 5u16) | (g << 6u16)
        | (h << 7u16) == a + 2 * b + 4 * c + 8 * d + 16 * e + 32 * f + 64 * g + 128 * h)
        by (bit_vector)
        requires
            a <= 1,
            b <= 1,
            c <= 1,
            d <= 1,
            e <= 1,
            f <= 1,
            g <= 1,
            h <= 1,
    ;
    a | (b << 1u16) | (c << 2u16) | (d << 3u16) | (e << 4u16) | (f << 5u16) | (g << 6u16) | (h
        << 7u16)
}

/// Packed key of the pass-through legs for the signals `s`.
pub open spec fn pass_key(s: int) -> int {
    3 * (s % 2) + 12 * ((s / 2) % 2) + 48 * ((s / 4) % 2) + 192 * ((s / 8) % 2)
}

/// The pass-through entries of `C` for the signals below `i`.
pub open spec fn pass_prefix_c(i: int) -> Seq<CEntry> {
    Seq::new(i as nat, |j: int| CEntry { legs: pass_legs(j), value: 1 })
}

proof fn lemma_pass_keys()
    ensures
        forall|s: int|
            0 <= s < 16 ==> #[trigger] legs_key_spec(pass_legs(s)) == pass_key(s) && legs_binary(
                pass_legs(s),
            ) && input_key_spec(pass_legs(s)) == s,
        forall|s1: int, s2: int|
            0 <= s1 < s2 < 16 ==> #[trigger] pass_key(s1) < #[trigger] pass_key(s2),
        forall|s: int| 0 <= s < 8 ==> #[trigger] pass_key(s) < 170,
        pass_key(8) == 192,
        legs_key_spec(occupied_legs()) == 170,
{
    assert forall|s: int| 0 <= s < 16 implies #[trigger] legs_key_spec(pass_legs(s)) == pass_key(s)
        && legs_binary(pass_legs(s)) && input_key_spec(pass_legs(s)) == s by {
        assert(s == 0 || s == 1 || s == 2 || s == 3 || s == 4 || s == 5 || s == 6 || s == 7 || s
            == 8 || s == 9 || s == 10 || s == 11 || s == 12 || s == 13 || s == 14 || s == 15);
    }
    assert forall|s: int| 0 <= s < 16 implies #[trigger] pass_key(s) == 3 * (s % 2) + 12 * ((s
        / 2) % 2) + 48 * ((s / 4) % 2) + 192 * (s / 8) && 0 <= (s / 8) <= 1 by {
        assert(s == 0 || s == 1 || s == 2 || s == 3 || s == 4 || s == 5 || s == 6 || s == 7 || s
            == 8 || s == 9 || s == 10 || s == 11 || s == 12 || s == 13 || s == 14 || s == 15);
    }
    assert forall|s1: int, s2: int| 0 <= s1 < s2 < 16 implies #[trigger] pass_key(s1)
        < #[trigger] pass_key(s2) by {
        assert(s1 == 0 || s1 == 1 || s1 == 2 || s1 == 3 || s1 == 4 || s1 == 5 || s1 == 6 || s1
            == 7 || s1 == 8 || s1 == 9 || s1 == 10 || s1 == 11 || s1 == 12 || s1 == 13 || s1
            == 14);
        assert(s2 == 1 || s2 == 2 || s2 == 3 || s2 == 4 || s2 == 5 || s2 == 6 || s2 == 7 || s2
            == 8 || s2 == 9 || s2 == 10 || s2 == 11 || s2 == 12 || s2 == 13 || s2 == 14 || s2
            == 15);
    }
    assert forall|s: int| 0 <= s < 8 implies #[trigger] pass_key(s) < 170 by {
        assert(s == 0 || s == 1 || s == 2 || s == 3 || s == 4 || s == 5 || s == 6 || s == 7);
    }
}

/// The entries of `C` listed for each incoming-signal key.
pub proof fn lemma_c_matching()
    ensures
        forall|k: int|
            0 <= k < 16 ==> #[trigger] c_matching(k) == if k == 0 {
                seq![CEntry { legs: pass_legs(0), value: 1 }, CEntry { legs: occupied_legs(), value: 1 }]
            } else {
                seq![CEntry { legs: pass_legs(k), value: 1 }]
            },
{
    lemma_pass_keys();
    let c = sec_vi_c();
    assert forall|k: int| 0 <= k < 16 implies #[trigger] c_matching(k) == if k == 0 {
        seq![CEntry { legs: pass_legs(0), value: 1 }, CEntry { legs: occupied_legs(), value: 1 }]
    } else {
        seq![CEntry { legs: pass_legs(k), value: 1 }]
    } by {
        reveal_with_fuel(matching_prefix, 18);
        assert forall|i: int| 0 <= i < 17 implies #[trigger] input_key_spec(c[i].legs) == if i
            < 8 {
            i
        } else if i == 8 {
            0
        } else {
            i - 1
        } by {}
        if k == 0 {
            assert(c_matching(k) =~= seq![CEntry { legs: pass_legs(0), value: 1 }, CEntry { legs: occupied_legs(), value: 1 }]);
        } else {
            assert(c_matching(k) =~= seq![CEntry { legs: pass_legs(k), value: 1 }]);
        }
    }
}

/// The rank-8 counting tensor `C`, with its entries also indexed by their
/// incoming signals.
#[derive(Debug)]
pub struct SiteTensorC {
    entries: Vec<CEntry>,
    entries_by_input: Vec<Vec<CEntry>>,
}

impl SiteTensorC {
    #[verifier::type_invariant]
    spec fn inv(self) -> bool {
        &&& self.entries@ == sec_vi_c()
        &&& self.entries_by_input@.len() == 16
        &&& forall|k: int| 0 <= k < 16 ==> #[trigger] self.entries_by_input@[k]@ == c_matching(k)
    }

    pub closed spec fn spec_entries(self) -> Seq<CEntry> {
        self.entries@
    }

    /// Contract the physical leg with `(1,1)^T`, as in Eq. (18): entries of
    /// `B` with equal legs are summed, and the result is ordered by packed
    /// leg key.
    pub fn from_b(tensor_b: &SiteTensorB) -> (tensor: Self)
        ensures
            tensor.spec_entries() == sec_vi_c(),
    {
        let b = tensor_b.entries();
        proof {
            lemma_pass_keys();
        }
        let mut entries: Vec<CEntry> = Vec::new();
        let mut i: usize = 0;
        while i < b.len()
            invariant
                i <= 17,
                b@ == sec_vi_b(),
                entries@ == if i <= 16 {
                    pass_prefix_c(i as int)
                } else {
                    sec_vi_c()
                },
            decreases 17 - i,
        {
            let entry = b[i];
            let key = legs_key(entry.legs);
            let mut pos: usize = 0;
            while pos < entries.len() && legs_key(entries[pos].legs) < key
                invariant
                    i < 17,
                    pos <= entries@.len(),
                    entries@ == pass_prefix_c(i as int),
                    key == legs_key_spec(entry.legs),
                    forall|j: int| 0 <= j < pos ==> legs_key_spec(#[trigger] entries@[j].legs) < key,
                decreases entries@.len() - pos,
            {
                pos = pos + 1;
            }
            if i < 16 {
                assert(pos == i) by {
                    if pos < i {
                        assert(legs_key_spec(entries@[pos as int].legs) == pass_key(pos as int));
                    }
                }
            } else {
                assert(pos == 8) by {
                    if pos > 8 {
                        assert(legs_key_spec(entries@[8].legs) < key);
                    }
                    if pos < 8 {
                        assert(legs_key_spec(entries@[pos as int].legs) == pass_key(pos as int));
                    }
                }
                assert(entries@[8].legs != occupied_legs());
            }
            if pos < entries.len() && entries[pos].legs == entry.legs {
                let merged = CEntry { legs: entry.legs, value: entries[pos].value + entry.value };
                entries.set(pos, merged);
            } else {
                entries.insert(pos, CEntry { legs: entry.legs, value: entry.value });
            }
            proof {
                if i < 16 {
                    assert(entries@ =~= pass_prefix_c(i as int + 1));
                } else {
                    assert(entries@ =~= sec_vi_c());
                }
            }
            i = i + 1;
        }
        let mut entries_by_input: Vec<Vec<CEntry>> = Vec::new();
        let mut k: usize = 0;
        while k < 16
            invariant
                k <= 16,
                entries@ == sec_vi_c(),
                entries_by_input@.len() == k,
                forall|j: int| 0 <= j < k ==> #[trigger] entries_by_input@[j]@ == c_matching(j),
            decreases 16 - k,
        {
            let mut matching: Vec<CEntry> = Vec::new();
            let mut i: usize = 0;
            while i < entries.len()
                invariant
                    i <= entries@.len(),
                    k < 16,
                    entries@ == sec_vi_c(),
                    matching@ == matching_prefix(entries@, i as int, k as int),
                decreases entries@.len() - i,
            {
                let legs = entries[i].legs;
                if input_key(legs.column_in, legs.row_in, legs.diag_dr_in, legs.diag_dl_in) == k {
                    matching.push(entries[i]);
                }
                i = i + 1;
            }
            entries_by_input.push(matching);
            k = k + 1;
        }
        SiteTensorC { entries, entries_by_input }
    }

    pub fn sec_vi() -> (tensor: Self)
        ensures
            tensor.spec_entries() == sec_vi_c(),
    {
        Self::from_b(&SiteTensorB::sec_vi())
    }

    pub fn entries(&self) -> (entries: &[CEntry])
        ensures
            entries@ == self.spec_entries(),
            entries@ == sec_vi_c(),
    {
        proof {
            use_type_invariant(self);
        }
        self.entries.as_slice()
    }

    /// The entries of `C` whose incoming signals are the given ones.
    pub fn matching_entries(&self, column_in: u8, row_in: u8, diag_dr_in: u8, diag_dl_in: u8) -> (
        matching: &[CEntry])
        requires
            column_in <= 1,
            row_in <= 1,
            diag_dr_in <= 1,
            diag_dl_in <= 1,
        ensures
            matching@ == c_matching(column_in + 2 * row_in + 4 * diag_dr_in + 8 * diag_dl_in),
    {
        proof {
            use_type_invariant(self);
        }
        let key = input_key(column_in, row_in, diag_dr_in, diag_dl_in);
        self.entries_by_input[key].as_slice()
    }
}

} // verus!
