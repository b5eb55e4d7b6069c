//! Calibration: raw RMS in ADC codes to amps.
//!
//! Every range has a built-in table; a field table pushed over the link and
//! kept in flash takes the place of the one for [`Range::Direct`]. Coordinates
//! are bit patterns of `f32` numbers (see [`crate::real32`]).

use crate::nvcal::{self, StoreError};
use crate::range::{Gain, Range};
use crate::real32;
use vstd::prelude::*;

verus! {

/// Built-in table of [`Range::Direct`], selected from a bench run against the
/// reference ammeter: the range this front end works in.
pub const CAL_X1: [(u32, u32); 68] = [
    (0x4011_47AE, 0x3DB4_3958),  // 2.27 LSB, 0.0880 A
    (0x4028_F5C3, 0x3DB6_E2EB),  // 2.64 LSB, 0.0893 A
    (0x4071_47AE, 0x3DBA_29C7),  // 3.77 LSB, 0.0909 A
    (0x4089_999A, 0x3DC1_54CA),  // 4.30 LSB, 0.0944 A
    (0x40B7_AE14, 0x3DCA_57A8),  // 5.74 LSB, 0.0988 A
    (0x40EC_CCCD, 0x3DD2_BD3C),  // 7.40 LSB, 0.1029 A
    (0x4114_7AE1, 0x3DDA_8588),  // 9.28 LSB, 0.1067 A
    (0x4117_AE14, 0x3DDC_C63F),  // 9.48 LSB, 0.1078 A
    (0x4123_5C29, 0x3DE0_4189),  // 10.21 LSB, 0.1095 A
    (0x412F_5C29, 0x3DE1_7C1C),  // 10.96 LSB, 0.1101 A
    (0x4154_7AE1, 0x3DEA_161E),  // 13.28 LSB, 0.1143 A
    (0x4164_28F6, 0x3DEF_6944),  // 14.26 LSB, 0.1169 A
    (0x417E_6666, 0x3DF3_EAB3),  // 15.90 LSB, 0.1191 A
    (0x418C_CCCD, 0x3DFB_4A23),  // 17.60 LSB, 0.1227 A
    (0x41A1_999A, 0x3E02_2681),  // 20.20 LSB, 0.1271 A
    (0x41AC_CCCD, 0x3E03_46DC),  // 21.60 LSB, 0.1282 A
    (0x41B2_F5C3, 0x3E05_A1CB),  // 22.37 LSB, 0.1305 A
    (0x41C3_C28F, 0x3E08_E8A7),  // 24.47 LSB, 0.1337 A
    (0x41CC_F5C3, 0x3E0B_7803),  // 25.62 LSB, 0.1362 A
    (0x41EB_EB85, 0x3E11_82AA),  // 29.49 LSB, 0.1421 A
    (0x4216_A3D7, 0x3E23_0553),  // 37.66 LSB, 0.1592 A
    (0x421E_B852, 0x3E26_B50B),  // 39.68 LSB, 0.1628 A
    (0x4225_147B, 0x3E2B_1C43),  // 41.27 LSB, 0.1671 A
    (0x4232_70A4, 0x3E30_20C5),  // 44.61 LSB, 0.1720 A
    (0x4239_1EB8, 0x3E34_1F21),  // 46.28 LSB, 0.1759 A
    (0x424A_0000, 0x3E3B_B2FF),  // 50.50 LSB, 0.1833 A
    (0x424F_E148, 0x3E3E_2824),  // 51.97 LSB, 0.1857 A
    (0x4269_CCCD, 0x3E3F_9724),  // 58.45 LSB, 0.1871 A
    (0x427C_EB85, 0x3E53_C361),  // 63.23 LSB, 0.2068 A
    (0x4285_8000, 0x3E5B_3D08),  // 66.75 LSB, 0.2141 A
    (0x4288_3852, 0x3E5C_91D1),  // 68.11 LSB, 0.2154 A
    (0x4290_B852, 0x3E64_DD2F),  // 72.36 LSB, 0.2235 A
    (0x42A0_851F, 0x3E72_4745),  // 80.26 LSB, 0.2366 A
    (0x42B0_4CCD, 0x3E80_DED3),  // 88.15 LSB, 0.2517 A
    (0x42D2_2E14, 0x3E92_88CE),  // 105.09 LSB, 0.2862 A
    (0x42D9_70A4, 0x3E99_1687),  // 108.72 LSB, 0.2990 A
    (0x42DF_DC29, 0x3E99_7F63),  // 111.93 LSB, 0.2998 A
    (0x42FA_23D7, 0x3EA6_DC5D),  // 125.07 LSB, 0.3259 A
    (0x4311_051F, 0x3EBB_CD36),  // 145.02 LSB, 0.3668 A
    (0x4317_970A, 0x3EC7_5254),  // 151.59 LSB, 0.3893 A
    (0x431C_FAE1, 0x3EC8_B439),  // 156.98 LSB, 0.3920 A
    (0x432E_07AE, 0x3EDB_2FEC),  // 174.03 LSB, 0.4281 A
    (0x4334_8A3D, 0x3EE0_D1B7),  // 180.54 LSB, 0.4391 A
    (0x4356_9C29, 0x3F04_5A1D),  // 214.61 LSB, 0.5170 A
    (0x436A_428F, 0x3F0E_5C92),  // 234.26 LSB, 0.5561 A
    (0x436F_A666, 0x3F11_E4F7),  // 239.65 LSB, 0.5699 A
    (0x438D_C7AE, 0x3F29_4467),  // 283.56 LSB, 0.6612 A
    (0x43B1_2666, 0x3F50_EBEE),  // 354.30 LSB, 0.8161 A
    (0x43BA_5EB8, 0x3F5B_6AE8),  // 372.74 LSB, 0.8571 A
    (0x43C1_0E14, 0x3F64_8E8A),  // 386.11 LSB, 0.8928 A
    (0x43C5_999A, 0x3F67_03B0),  // 395.20 LSB, 0.9024 A
    (0x43DE_228F, 0x3F80_902E),  // 444.27 LSB, 1.0044 A
    (0x43EF_03D7, 0x3F8A_B6AE),  // 478.03 LSB, 1.0837 A
    (0x43F4_C7AE, 0x3F8C_710D),  // 489.56 LSB, 1.0972 A
    (0x43F9_DC29, 0x3F90_9D49),  // 499.72 LSB, 1.1298 A
    (0x4400_1000, 0x3F93_74BC),  // 512.25 LSB, 1.1520 A
    (0x440B_ACCD, 0x3FA0_D845),  // 558.70 LSB, 1.2566 A
    (0x4414_5333, 0x3FA9_7C1C),  // 593.30 LSB, 1.3241 A
    (0x442D_EA3D, 0x3FC5_A512),  // 695.66 LSB, 1.5441 A
    (0x4437_CCCD, 0x3FD5_3C36),  // 735.20 LSB, 1.6659 A
    (0x443C_2A3D, 0x3FD5_CC64),  // 752.66 LSB, 1.6703 A
    (0x4447_F852, 0x3FE1_7F63),  // 799.88 LSB, 1.7617 A
    (0x444D_08F6, 0x3FE8_A71E),  // 820.14 LSB, 1.8176 A
    (0x4458_F99A, 0x3FEE_D917),  // 867.90 LSB, 1.8660 A
    (0x445D_E99A, 0x3FFA_8C15),  // 887.65 LSB, 1.9574 A
    (0x4479_4CCD, 0x400D_1340),  // 997.20 LSB, 2.2043 A
    (0x447F_67AE, 0x400E_9931),  // 1021.62 LSB, 2.2281 A
    (0x4498_528F, 0x402B_4880),  // 1218.58 LSB, 2.6763 A
];

pub const CAL_X2: [(u32, u32); 0] = [];

pub const CAL_X4: [(u32, u32); 0] = [];

pub const CAL_X8: [(u32, u32); 0] = [];

pub const CAL_X16: [(u32, u32); 0] = [];

pub const CAL_X32: [(u32, u32); 0] = [];

/// Amps per code on a range without a table, at unity gain: 0.002685222.
pub const CAL_FALLBACK_A_PER_LSB: u32 = 0x3B2F_FA8D;

/// Trim on the fallback: 1.
pub const CAL_FALLBACK_GAIN: u32 = 0x3F80_0000;

/// Points a field table may hold.
pub const FIELD_MAX: usize = 16;

/// A calibration table small enough to travel over the link and live in
/// flash: `(codes, amps)` pairs, of which the first `len` are in use.
#[derive(Clone, Copy, Debug)]
pub struct Table {
    pub points: [(u32, u32); FIELD_MAX],
    pub len: usize,
}

/// A table as a mathematical value.
#[verifier::ext_equal]
pub struct TableView {
    /// Every slot, used or not.
    pub points: Seq<(u32, u32)>,
    pub len: nat,
}

impl View for Table {
    type V = TableView;

    open spec fn view(&self) -> TableView {
        TableView { points: self.points@, len: self.len as nat }
    }
}

/// A coordinate the lookup can work with: a finite number, not below zero.
pub open spec fn usable(bits: u32) -> bool {
    real32::finite(bits) && !real32::negative(bits)
}

/// Both coordinates of a point are usable.
pub open spec fn usable_point(point: (u32, u32)) -> bool {
    usable(point.0) && usable(point.1)
}

/// Why a point cannot be staged, if it cannot.
pub open spec fn point_error(index: int, point: (u32, u32)) -> Option<CalError> {
    if index >= FIELD_MAX {
        Some(CalError::Index)
    } else if !usable_point(point) {
        Some(CalError::Value)
    } else {
        None
    }
}

/// The first column strictly ascends.
pub open spec fn ascending(points: Seq<(u32, u32)>) -> bool {
    forall|i: int, j: int|
        #![trigger points[i], points[j]]
        0 <= i < j < points.len() ==> real32::less(points[i].0, points[j].0)
}

impl TableView {
    /// A table with nothing in it.
    pub open spec fn empty() -> TableView {
        TableView { points: Seq::new(FIELD_MAX as nat, |i: int| (0u32, 0u32)), len: 0 }
    }

    /// The points in use.
    pub open spec fn used(self) -> Seq<(u32, u32)> {
        self.points.take(self.len as int)
    }

    /// What the lookup cannot do without: two points or more, numbers that
    /// are numbers, and an ascending first column. What the amps do between
    /// two points is a measurement result and is left alone.
    pub open spec fn valid(self) -> bool {
        &&& 2 <= self.len <= FIELD_MAX
        &&& self.points.len() == FIELD_MAX
        &&& forall|i: int| 0 <= i < self.len ==> usable_point(#[trigger] self.used()[i])
        &&& ascending(self.used())
    }
}

impl Table {
    /// A table with nothing in it.
    pub fn empty() -> (table: Table)
        ensures
            table@ == TableView::empty(),
    {
        let table: Table = Table { points: [(0u32, 0u32); 16], len: 0 };
        assert(table@.points =~= TableView::empty().points);
        table
    }

    /// The points in use.
    pub fn as_slice(&self) -> (points: &[(u32, u32)])
        requires
            self.len <= FIELD_MAX,
        ensures
            points@ == self@.used(),
    {
        vstd::slice::slice_subrange(self.points.as_slice(), 0, self.len)
    }

    /// Whether the lookup can work with this table.
    pub fn valid(&self) -> (yes: bool)
        ensures
            yes == self@.valid(),
    {
        if self.len < 2 || self.len > FIELD_MAX {
            return false;
        }
        let used: &[(u32, u32)] = self.as_slice();
        let mut i: usize = 0;
        while i < used.len()
            invariant
                used@ == self@.used(),
                used@.len() == self.len,
                i <= used@.len(),
                forall|k: int| 0 <= k < i ==> usable_point(#[trigger] used@[k]),
            decreases used@.len() - i,
        {
            let (lsb, amps) = used[i];
            if !real32::is_finite(lsb) || !real32::is_finite(amps) || real32::is_negative(lsb) || real32::is_negative(
                amps,
            ) {
                assert(!usable_point(used@[i as int]));
                return false;
            }
            i += 1;
        }
        let mut j: usize = 1;
        while j < used.len()
            invariant
                used@ == self@.used(),
                used@.len() == self.len,
                1 <= j <= used@.len(),
                ascending(used@.take(j as int)),
            decreases used@.len() - j,
        {
            if !real32::is_less(used[j - 1].0, used[j].0) {
                assert(!ascending(used@));
                return false;
            }
            proof {
                let before = used@.take(j as int);
                let after = used@.take(j + 1);
                assert forall|a: int, b: int|
                    #![trigger after[a], after[b]]
                    0 <= a < b < after.len() implies real32::less(after[a].0, after[b].0) by {
                    assert(after[a] == used@[a] && after[b] == used@[b]);
                    assert(a < j ==> before[a] == used@[a]);
                    assert(before[j - 1] == used@[j - 1]);
                    if b < j {
                        assert(before[b] == used@[b]);
                    }
                }
            }
            j += 1;
        }
        assert(used@.take(j as int) =~= used@);
        true
    }
}

/// The built-in table of a range.
#[verifier::opaque]
pub open spec fn built_in(range: Range) -> Seq<(u32, u32)> {
    match range {
        Range::Direct => CAL_X1@,
        Range::Pga(Gain::X2) => CAL_X2@,
        Range::Pga(Gain::X4) => CAL_X4@,
        Range::Pga(Gain::X8) => CAL_X8@,
        Range::Pga(Gain::X16) => CAL_X16@,
        Range::Pga(Gain::X32) => CAL_X32@,
    }
}

fn listed(points: &[(u32, u32)]) -> (list: Vec<(u32, u32)>)
    ensures
        list@ == points@,
{
    let mut list: Vec<(u32, u32)> = Vec::new();
    let mut i: usize = 0;
    while i < points.len()
        invariant
            i <= points@.len(),
            list@ == points@.take(i as int),
        decreases points@.len() - i,
    {
        list.push(points[i]);
        i += 1;
    }
    assert(points@.take(i as int) =~= points@);
    list
}

/// The built-in table of a range.
pub fn cal_for(range: Range) -> (points: Vec<(u32, u32)>)
    ensures
        points@ == built_in(range),
{
    reveal(built_in);
    match range {
        Range::Direct => listed(CAL_X1.as_slice()),
        Range::Pga(Gain::X2) => listed(CAL_X2.as_slice()),
        Range::Pga(Gain::X4) => listed(CAL_X4.as_slice()),
        Range::Pga(Gain::X8) => listed(CAL_X8.as_slice()),
        Range::Pga(Gain::X16) => listed(CAL_X16.as_slice()),
        Range::Pga(Gain::X32) => listed(CAL_X32.as_slice()),
    }
}

/// Both columns strictly ascend.
pub open spec fn strictly_ascending(points: Seq<(u32, u32)>) -> bool {
    forall|i: int, j: int|
        #![trigger points[i], points[j]]
        0 <= i < j < points.len() ==> real32::less(points[i].0, points[j].0) && real32::less(points[i].1, points[j].1)
}

/// Neither column holds a NaN.
pub open spec fn all_numbers(points: Seq<(u32, u32)>) -> bool {
    forall|i: int| 0 <= i < points.len() ==> !real32::nan((#[trigger] points[i]).0) && !real32::nan(points[i].1)
}

/// Both columns of a built-in table must increase together. A NaN in either
/// fails this too, in a table of one point as well.
pub fn cal_strictly_ascending(cal: &[(u32, u32)]) -> (yes: bool)
    ensures
        yes == (strictly_ascending(cal@) && all_numbers(cal@)),
{
    let mut k: usize = 0;
    while k < cal.len()
        invariant
            k <= cal@.len(),
            all_numbers(cal@.take(k as int)),
        decreases cal@.len() - k,
    {
        if real32::is_nan(cal[k].0) || real32::is_nan(cal[k].1) {
            assert(!all_numbers(cal@));
            return false;
        }
        proof {
            let before = cal@.take(k as int);
            let after = cal@.take(k + 1);
            assert forall|i: int| 0 <= i < after.len() implies !real32::nan((#[trigger] after[i]).0) && !real32::nan(
                after[i].1,
            ) by {
                if i < k {
                    assert(after[i] == before[i]);
                }
            }
        }
        k += 1;
    }
    assert(cal@.take(k as int) =~= cal@);
    let mut i: usize = 1;
    while i < cal.len()
        invariant
            1 <= i,
            i <= cal@.len() || cal@.len() == 0,
            all_numbers(cal@),
            cal@.len() > 0 ==> strictly_ascending(cal@.take(i as int)),
        decreases cal@.len() - i,
    {
        if !(real32::is_less(cal[i - 1].0, cal[i].0) && real32::is_less(cal[i - 1].1, cal[i].1)) {
            assert(!strictly_ascending(cal@));
            return false;
        }
        proof {
            let before = cal@.take(i as int);
            let after = cal@.take(i + 1);
            assert forall|a: int, b: int|
                #![trigger after[a], after[b]]
                0 <= a < b < after.len() implies real32::less(after[a].0, after[b].0) && real32::less(
                after[a].1,
                after[b].1,
            ) by {
                assert(after[a] == cal@[a] && after[b] == cal@[b]);
                assert(a < i ==> before[a] == cal@[a]);
                assert(before[i - 1] == cal@[i - 1]);
                if b < i {
                    assert(before[b] == cal@[b]);
                }
            }
        }
        i += 1;
    }
    if cal.len() > 0 {
        assert(cal@.take(i as int) =~= cal@);
    }
    true
}

proof fn lemma_positive_order(a: u32, b: u32)
    requires
        a < b <= real32::INFINITY,
    ensures
        real32::less(a, b),
{
    real32::law_scaled_is_increasing(a as int, b as int);
}

/// A table of positive numbers ascends when its patterns do.
proof fn lemma_patterns_ascend(points: Seq<(u32, u32)>)
    requires
        forall|i: int, j: int|
            #![trigger points[i], points[j]]
            0 <= i < j < points.len() ==> points[i].0 < points[j].0 < real32::INFINITY && points[i].1 < points[j].1
                < real32::INFINITY,
    ensures
        strictly_ascending(points),
{
    assert forall|i: int, j: int|
        #![trigger points[i], points[j]]
        0 <= i < j < points.len() implies real32::less(points[i].0, points[j].0) && real32::less(
        points[i].1,
        points[j].1,
    ) by {
        lemma_positive_order(points[i].0, points[j].0);
        lemma_positive_order(points[i].1, points[j].1);
    }
}

/// Both columns of every built-in table increase together.
pub proof fn law_built_in_tables_ascend(range: Range)
    ensures
        strictly_ascending(built_in(range)),
        all_numbers(built_in(range)),
{
    reveal(built_in);
    if range == Range::Direct {
        let points = built_in(range);
        assert forall|i: int| 0 <= i < points.len() implies !real32::nan((#[trigger] points[i]).0) && !real32::nan(
            points[i].1,
        ) by {
            if i > 0 {
                lemma_x1_rises(0, i);
            } else {
                lemma_x1_rises(0, 1);
            }
        }
        assert forall|i: int, j: int|
            #![trigger points[i], points[j]]
            0 <= i < j < points.len() implies points[i].0 < points[j].0 < real32::INFINITY && points[i].1
            < points[j].1 < real32::INFINITY by {
            lemma_x1_rises(i, j);
        }
        lemma_patterns_ascend(points);
    }
}

proof fn lemma_x1_rises(i: int, j: int)
    requires
        0 <= i < j < 68,
    ensures
        CAL_X1@[i].0 < CAL_X1@[j].0 < real32::INFINITY,
        CAL_X1@[i].1 < CAL_X1@[j].1 < real32::INFINITY,
    decreases j - i,
{
    if i + 1 < j {
        lemma_x1_rises(i + 1, j);
    }
    assert(CAL_X1@[i].0 < CAL_X1@[i + 1].0 && CAL_X1@[i].1 < CAL_X1@[i + 1].1);
    assert(CAL_X1@[j].0 < real32::INFINITY && CAL_X1@[j].1 < real32::INFINITY);
}

#[derive(Clone, Copy, Debug, PartialEq, Eq, Structural)]
pub enum CalError {
    /// Point index outside the table.
    Index,
    /// A coordinate that is not a usable number.
    Value,
    /// Fewer points committed than were staged, or a gap in the middle.
    Missing,
    /// The committed table is not two or more strictly ascending points.
    Order,
    /// The flash controller refused the write. The table in use is left
    /// alone.
    Flash,
}

/// The field calibration: the table in use, and the push in progress.
#[derive(Debug)]
pub struct Calibration {
    /// The table in use, or `None` while the meter is on its built-in one.
    field: Option<Table>,
    /// Points as they arrive. A push is not atomic on the wire, so they are
    /// kept apart until it is complete.
    staged: Table,
    /// Which slots were written since the last commit or clear, a bit each.
    mask: u16,
}

/// The field calibration as a mathematical value.
#[verifier::ext_equal]
pub struct CalibrationView {
    pub field: Option<TableView>,
    pub staged: Seq<(u32, u32)>,
    /// Which staged slots were written.
    pub marks: Seq<bool>,
}

/// Whether bit `i` of a mask is set.
pub open spec fn bit(mask: u16, i: int) -> bool {
    (mask >> (i as u16)) & 1 == 1
}

impl View for Calibration {
    type V = CalibrationView;

    closed spec fn view(&self) -> CalibrationView {
        CalibrationView {
            field: match self.field {
                Some(table) => Some(table@),
                None => None,
            },
            staged: self.staged.points@,
            marks: Seq::new(FIELD_MAX as nat, |i: int| bit(self.mask, i)),
        }
    }
}

impl CalibrationView {
    /// Nothing in use, nothing staged.
    pub open spec fn fresh() -> CalibrationView {
        CalibrationView {
            field: None,
            staged: TableView::empty().points,
            marks: Seq::new(FIELD_MAX as nat, |i: int| false),
        }
    }

    /// The table in use is one the lookup can work with.
    pub open spec fn wf(self) -> bool {
        &&& self.staged.len() == FIELD_MAX
        &&& self.marks.len() == FIELD_MAX
        &&& self.field matches Some(table) ==> table.valid()
    }

    /// After boot, on what was found in flash.
    pub open spec fn booted(found: Option<TableView>) -> CalibrationView {
        CalibrationView {
            field: match found {
                Some(table) => if table.valid() {
                    Some(table)
                } else {
                    None
                },
                None => None,
            },
            ..CalibrationView::fresh()
        }
    }

    /// After one point of a push has been taken.
    pub open spec fn with_point(self, index: int, point: (u32, u32)) -> CalibrationView {
        CalibrationView { staged: self.staged.update(index, point), marks: self.marks.update(index, true), ..self }
    }

    /// The first `count` slots have all been written.
    pub open spec fn complete(self, count: int) -> bool {
        forall|i: int| 0 <= i < count ==> #[trigger] self.marks[i]
    }

    /// A slot that a commit of `count` points would leave out was written.
    pub open spec fn exceeds(self, count: int) -> bool {
        exists|i: int| count <= i < FIELD_MAX && #[trigger] self.marks[i]
    }

    /// The table a commit of `count` points is for.
    pub open spec fn candidate(self, count: int) -> TableView {
        TableView { points: self.staged, len: count as nat }
    }

    /// What stands in the way of a commit.
    pub open spec fn refusal(self, count: int) -> Option<CalError> {
        if !(2 <= count <= FIELD_MAX) {
            Some(CalError::Order)
        } else if !self.complete(count) || self.exceeds(count) {
            Some(CalError::Missing)
        } else if !self.candidate(count).valid() {
            Some(CalError::Order)
        } else {
            None
        }
    }

    /// The table a range is read on.
    pub open spec fn table_for(self, range: Range) -> Seq<(u32, u32)> {
        match (range, self.field) {
            (Range::Direct, Some(table)) => table.used(),
            _ => built_in(range),
        }
    }
}

/// A change of table that has been checked and is waiting for flash.
#[derive(Clone, Copy, Debug)]
pub enum Pending {
    /// Read on this table from now on.
    Install(Table),
    /// Go back to the built-in table.
    Clear,
}

impl Pending {
    /// The table that has to reach flash for the change to take effect. A
    /// table without points stands for "none".
    pub open spec fn spec_record(self) -> TableView {
        match self {
            Pending::Install(table) => table@,
            Pending::Clear => TableView::empty(),
        }
    }

    /// The table to store in flash.
    pub fn record(&self) -> (table: Table)
        ensures
            table@ == self.spec_record(),
    {
        match self {
            Pending::Install(table) => *table,
            Pending::Clear => Table::empty(),
        }
    }

    /// What the change leaves behind.
    pub open spec fn outcome(self) -> CalibrationView {
        CalibrationView {
            field: match self {
                Pending::Install(table) => Some(table@),
                Pending::Clear => None,
            },
            ..CalibrationView::fresh()
        }
    }

    /// The change leaves a table the lookup can work with.
    pub open spec fn wf(self) -> bool {
        self matches Pending::Install(table) ==> table@.valid()
    }
}

/// How a reading is to be turned into amps.
#[derive(Clone, Copy, Debug, PartialEq, Eq)]
pub enum Lookup {
    /// On the straight line through these two points, extended beyond them.
    Line { from: (u32, u32), to: (u32, u32) },
    /// By the fallback scale over this gain.
    Scale { nominal: i32 },
}

/// The segment a reading falls on: the first whose far end is above it, or
/// the last.
pub open spec fn is_segment(rms: u32, points: Seq<(u32, u32)>, seg: int) -> bool {
    &&& 0 <= seg <= points.len() - 2
    &&& seg < points.len() - 2 ==> real32::less(rms, points[seg + 1].0)
    &&& forall|i: int| #![trigger points[i]] 1 <= i <= seg ==> !real32::less(rms, points[i].0)
}

/// How a reading is looked up in a table.
pub open spec fn looks_up(found: Lookup, rms: u32, range: Range, points: Seq<(u32, u32)>) -> bool {
    match found {
        Lookup::Line { from, to } => points.len() >= 2 && exists|seg: int| #[trigger]
            is_segment(rms, points, seg) && from == points[seg] && to == points[seg + 1],
        Lookup::Scale { nominal } => points.len() < 2 && nominal == range.spec_nominal(),
    }
}

fn segment(rms: u32, points: &[(u32, u32)]) -> (seg: usize)
    requires
        points@.len() >= 2,
    ensures
        is_segment(rms, points@, seg as int),
{
    let mut i: usize = 0;
    while i < points.len() - 2
        invariant
            points@.len() >= 2,
            i <= points@.len() - 2,
            forall|k: int| #![trigger points@[k]] 1 <= k <= i ==> !real32::less(rms, points@[k].0),
        decreases points@.len() - i,
    {
        if real32::is_less(rms, points[i + 1].0) {
            return i;
        }
        i += 1;
    }
    i
}

fn line(rms: u32, points: &[(u32, u32)]) -> (found: Lookup)
    requires
        points@.len() >= 2,
    ensures
        found matches Lookup::Line { from, to } && exists|seg: int| #[trigger]
            is_segment(rms, points@, seg) && from == points@[seg] && to == points@[seg + 1],
{
    let seg: usize = segment(rms, points);
    Lookup::Line { from: points[seg], to: points[seg + 1] }
}

impl Calibration {
    /// The meter before boot: on its built-in table.
    pub fn new() -> (cal: Calibration)
        ensures
            cal@ == CalibrationView::fresh(),
            cal@.wf(),
    {
        let cal: Calibration = Calibration { field: None, staged: Table::empty(), mask: 0 };
        assert forall|i: int| 0 <= i < FIELD_MAX implies !#[trigger] bit(0, i) by {
            let k: u16 = i as u16;
            assert((0u16 >> k) & 1 == 0) by (bit_vector);
        }
        assert(cal@ =~= CalibrationView::fresh());
        cal
    }

    /// Install what was found in flash. A table the lookup cannot work with
    /// is dropped rather than repaired.
    pub fn load_field(&mut self, found: Option<Table>)
        requires
            old(self)@.wf(),
        ensures
            final(self)@.wf(),
            final(self)@ == (CalibrationView {
                field: CalibrationView::booted(
                    match found {
                        Some(table) => Some(table@),
                        None => None,
                    },
                ).field,
                ..old(self)@
            }),
    {
        self.field = match found {
            Some(table) => if table.valid() {
                Some(table)
            } else {
                None
            },
            None => None,
        };
    }

    /// How many points the meter is reading on; 0 means its built-in table.
    pub fn field_len(&self) -> (len: usize)
        ensures
            len == match self@.field {
                Some(table) => table.len,
                None => 0,
            },
    {
        match &self.field {
            Some(table) => table.len,
            None => 0,
        }
    }

    /// Take one point of an in-progress push.
    pub fn stage_point(&mut self, index: usize, lsb: u32, amps: u32) -> (taken: Result<(), CalError>)
        requires
            old(self)@.wf(),
        ensures
            final(self)@.wf(),
            taken == match point_error(index as int, (lsb, amps)) {
                Some(e) => Err::<(), CalError>(e),
                None => Ok(()),
            },
            taken == if index >= FIELD_MAX {
                Err::<(), CalError>(CalError::Index)
            } else if !usable_point((lsb, amps)) {
                Err(CalError::Value)
            } else {
                Ok(())
            },
            final(self)@ == if taken is Ok {
                old(self)@.with_point(index as int, (lsb, amps))
            } else {
                old(self)@
            },
    {
        if index >= FIELD_MAX {
            return Err(CalError::Index);
        }
        if !real32::is_finite(lsb) || !real32::is_finite(amps) || real32::is_negative(lsb) || real32::is_negative(
            amps,
        ) {
            return Err(CalError::Value);
        }
        let k: u16 = index as u16;
        let before: u16 = self.mask;
        self.staged.points[index] = (lsb, amps);
        self.mask = before | (1u16 << k);
        proof {
            assert forall|i: int| 0 <= i < FIELD_MAX implies #[trigger] bit(self.mask, i) == (bit(before, i) || i
                == index) by {
                let j: u16 = i as u16;
                assert((((before | (1u16 << k)) >> j) & 1 == 1) == ((before >> j) & 1 == 1 || j == k)) by (bit_vector)
                    requires
                        j < 16,
                        k < 16,
                ;
            }
            assert(self@ =~= old(self)@.with_point(index as int, (lsb, amps)));
        }
        Ok(())
    }

    /// Finish a push: check the staged points. What comes back has to reach
    /// flash before it takes effect; hand it to [`Calibration::settle`] with
    /// the outcome.
    pub fn commit_field(&self, count: usize) -> (pending: Result<Pending, CalError>)
        requires
            self@.wf(),
        ensures
            match pending {
                Ok(change) => {
                    &&& self@.refusal(count as int) is None
                    &&& change matches Pending::Install(table)
                    &&& table@ == self@.candidate(count as int)
                    &&& change.wf()
                },
                Err(e) => self@.refusal(count as int) == Some(e),
            },
    {
        if count < 2 || count > FIELD_MAX {
            return Err(CalError::Order);
        }
        let mut i: usize = 0;
        while i < count
            invariant
                2 <= count <= FIELD_MAX,
                i <= count,
                self@.complete(i as int),
            decreases count - i,
        {
            let k: u16 = i as u16;
            if (self.mask >> k) & 1 != 1 {
                assert(!self@.marks[i as int]);
                return Err(CalError::Missing);
            }
            i += 1;
        }
        while i < FIELD_MAX
            invariant
                2 <= count <= i <= FIELD_MAX,
                self@.complete(count as int),
                forall|j: int| count <= j < i ==> !#[trigger] self@.marks[j],
            decreases FIELD_MAX - i,
        {
            let k: u16 = i as u16;
            if (self.mask >> k) & 1 == 1 {
                assert(self@.marks[i as int]);
                return Err(CalError::Missing);
            }
            assert(!self@.marks[i as int]);
            i += 1;
        }
        let mut table: Table = self.staged;
        table.len = count;
        assert(table@ =~= self@.candidate(count as int));
        if !table.valid() {
            return Err(CalError::Order);
        }
        Ok(Pending::Install(table))
    }

    /// Go back to the built-in table. `None` means the meter is already there
    /// and nothing needs writing: the clear is done, and what was staged is
    /// forgotten.
    pub fn clear_field(&mut self) -> (pending: Option<Pending>)
        requires
            old(self)@.wf(),
        ensures
            final(self)@.wf(),
            pending == if old(self)@.field is None {
                None::<Pending>
            } else {
                Some(Pending::Clear)
            },
            final(self)@ == if old(self)@.field is None {
                CalibrationView::fresh()
            } else {
                old(self)@
            },
    {
        if self.field_len() == 0 {
            *self = Calibration::new();
            return None;
        }
        Some(Pending::Clear)
    }

    /// Flash first, then the table in use, so that the two can only disagree
    /// in the safe direction: a write that failed leaves the meter on the
    /// table it had, and says so.
    pub fn settle(&mut self, pending: Pending, stored: Result<(), StoreError>) -> (done: Result<(), CalError>)
        requires
            old(self)@.wf(),
            pending.wf(),
        ensures
            final(self)@.wf(),
            done == if stored is Ok {
                Ok::<(), CalError>(())
            } else {
                Err(CalError::Flash)
            },
            final(self)@ == if stored is Ok {
                pending.outcome()
            } else {
                old(self)@
            },
    {
        match stored {
            Err(_) => Err(CalError::Flash),
            Ok(()) => {
                let fresh: Calibration = Calibration::new();
                self.staged = fresh.staged;
                self.mask = fresh.mask;
                self.field = match pending {
                    Pending::Install(table) => Some(table),
                    Pending::Clear => None,
                };
                assert(self@.staged == fresh@.staged);
                assert(self@.marks =~= fresh@.marks);
                assert(self@ =~= pending.outcome());
                Ok(())
            },
        }
    }

    /// Where a reading falls in the active range's table. Outside the table
    /// the end segments are extended rather than clamped, so that a current
    /// over the limit is not under-reported.
    pub fn lsb_to_amps(&self, rms: u32, range: Range) -> (found: Lookup)
        requires
            self@.wf(),
        ensures
            looks_up(found, rms, range, self@.table_for(range)),
            found matches Lookup::Line { from, to } ==> real32::less(from.0, to.0),
    {
        if range == Range::Direct {
            if let Some(table) = &self.field {
                return line(rms, table.as_slice());
            }
        }
        let cal: Vec<(u32, u32)> = cal_for(range);
        proof {
            law_built_in_tables_ascend(range);
        }
        if cal.len() < 2 {
            return Lookup::Scale { nominal: range.nominal() };
        }
        line(rms, cal.as_slice())
    }
}

/// A point on the wire: its slot and its coordinates.
pub struct Sent {
    pub index: int,
    pub point: (u32, u32),
}

/// A slot of the table and coordinates that can be used.
pub open spec fn acceptable(sent: Sent) -> bool {
    0 <= sent.index < FIELD_MAX && usable_point(sent.point)
}

/// The calibration after a run of points has been taken.
pub open spec fn pushed(cal: CalibrationView, run: Seq<Sent>) -> CalibrationView
    decreases run.len(),
{
    if run.len() == 0 {
        cal
    } else {
        pushed(cal, run.drop_last()).with_point(run.last().index, run.last().point)
    }
}

/// The last point sent for a slot.
pub open spec fn last_sent(run: Seq<Sent>, at: int) -> Option<(u32, u32)>
    decreases run.len(),
{
    if run.len() == 0 {
        None
    } else if run.last().index == at {
        Some(run.last().point)
    } else {
        last_sent(run.drop_last(), at)
    }
}

/// A push in progress never changes the table in use.
pub proof fn law_push_leaves_the_table_in_use(cal: CalibrationView, run: Seq<Sent>)
    ensures
        pushed(cal, run).field == cal.field,
    decreases run.len(),
{
    if run.len() > 0 {
        law_push_leaves_the_table_in_use(cal, run.drop_last());
    }
}

/// A slot that points were sent for is marked and holds the last of them; any
/// other is as it was.
pub proof fn law_staging_keeps_the_last_point(cal: CalibrationView, run: Seq<Sent>, at: int)
    requires
        cal.staged.len() == FIELD_MAX,
        cal.marks.len() == FIELD_MAX,
        0 <= at < FIELD_MAX,
        forall|i: int| 0 <= i < run.len() ==> acceptable(#[trigger] run[i]),
    ensures
        pushed(cal, run).staged.len() == FIELD_MAX,
        pushed(cal, run).marks.len() == FIELD_MAX,
        match last_sent(run, at) {
            Some(point) => pushed(cal, run).marks[at] && pushed(cal, run).staged[at] == point,
            None => pushed(cal, run).marks[at] == cal.marks[at] && pushed(cal, run).staged[at] == cal.staged[at],
        },
    decreases run.len(),
{
    if run.len() > 0 {
        let shorter = run.drop_last();
        assert forall|i: int| 0 <= i < shorter.len() implies acceptable(#[trigger] shorter[i]) by {
            assert(shorter[i] == run[i]);
        }
        law_staging_keeps_the_last_point(cal, shorter, at);
        assert(acceptable(run[run.len() - 1]));
    }
}

/// A push that sent every one of `count` ascending points and no other is
/// accepted, and the table that comes of it holds the last point sent for each
/// slot.
pub proof fn law_complete_push_is_accepted(cal: CalibrationView, run: Seq<Sent>, count: int)
    requires
        cal.wf(),
        2 <= count <= FIELD_MAX,
        forall|i: int| 0 <= i < run.len() ==> acceptable(#[trigger] run[i]),
        forall|at: int| 0 <= at < count ==> #[trigger] last_sent(run, at) is Some,
        forall|at: int| count <= at < FIELD_MAX ==> #[trigger] last_sent(run, at) is None,
        !cal.exceeds(count),
        forall|a: int, b: int|
            0 <= a < b < count ==> real32::less(
                (#[trigger] last_sent(run, a)).unwrap().0,
                (#[trigger] last_sent(run, b)).unwrap().0,
            ),
    ensures
        pushed(cal, run).refusal(count) is None,
        forall|at: int|
            0 <= at < count ==> #[trigger] pushed(cal, run).candidate(count).used()[at] == last_sent(
                run,
                at,
            ).unwrap(),
{
    let now = pushed(cal, run);
    let table = now.candidate(count);
    law_staging_keeps_the_last_point(cal, run, 0);
    assert forall|at: int| 0 <= at < count implies now.marks[at] && #[trigger] table.used()[at] == last_sent(
        run,
        at,
    ).unwrap() && usable_point(table.used()[at]) by {
        assert(last_sent(run, at) is Some);
        law_staging_keeps_the_last_point(cal, run, at);
        lemma_sent_is_usable(run, at);
    }
    assert forall|at: int| count <= at < FIELD_MAX implies !#[trigger] now.marks[at] by {
        assert(last_sent(run, at) is None);
        law_staging_keeps_the_last_point(cal, run, at);
    }
    assert(now.complete(count)) by {
        assert forall|i: int| 0 <= i < count implies #[trigger] now.marks[i] by {
            assert(table.used()[i] == last_sent(run, i).unwrap());
        }
    }
}

proof fn lemma_sent_is_usable(run: Seq<Sent>, at: int)
    requires
        forall|i: int| 0 <= i < run.len() ==> acceptable(#[trigger] run[i]),
        last_sent(run, at) is Some,
    ensures
        usable_point(last_sent(run, at).unwrap()),
    decreases run.len(),
{
    let shorter = run.drop_last();
    assert forall|i: int| 0 <= i < shorter.len() implies acceptable(#[trigger] shorter[i]) by {
        assert(shorter[i] == run[i]);
    }
    assert(acceptable(run[run.len() - 1]));
    if run.last().index != at {
        lemma_sent_is_usable(shorter, at);
    }
}

/// A commit of fewer points than were sent is refused.
pub proof fn law_short_commit_is_refused(cal: CalibrationView, run: Seq<Sent>, count: int, left: int)
    requires
        cal.wf(),
        2 <= count <= left < FIELD_MAX,
        forall|i: int| 0 <= i < run.len() ==> acceptable(#[trigger] run[i]),
        last_sent(run, left) is Some,
    ensures
        pushed(cal, run).refusal(count) == Some(CalError::Missing),
{
    law_staging_keeps_the_last_point(cal, run, left);
    assert(pushed(cal, run).marks[left]);
}

/// A push that lost a point is refused: nothing left over from an earlier one
/// can take its place, since a commit or a clear forgets what was staged.
pub proof fn law_gap_in_a_push_is_refused(change: Pending, run: Seq<Sent>, count: int, lost: int)
    requires
        change.wf(),
        2 <= count <= FIELD_MAX,
        0 <= lost < count,
        forall|i: int| 0 <= i < run.len() ==> acceptable(#[trigger] run[i]),
        last_sent(run, lost) is None,
    ensures
        pushed(change.outcome(), run).refusal(count) == Some(CalError::Missing),
{
    law_staging_keeps_the_last_point(change.outcome(), run, lost);
    assert(!pushed(change.outcome(), run).marks[lost]);
}

/// A change that reached flash survives a power loss: booting on the sector
/// it was stored in gives the table it installed, or the built-in one if it
/// cleared it.
pub proof fn law_change_survives_power_loss(change: Pending, last: Option<(usize, u32)>, sector: Seq<u32>)
    requires
        change.wf(),
        nvcal::remembers(last, sector),
        nvcal::append_point(last, sector).1 < u32::MAX,
    ensures
        CalibrationView::booted(
            nvcal::loaded(nvcal::stored(last, sector, change.spec_record(), nvcal::RECORD_WORDS as int)),
        ) == change.outcome(),
{
    nvcal::law_load_returns_what_was_stored(last, sector, change.spec_record());
}

/// Power lost while a change is being appended to flash leaves the meter
/// booting on the table it had.
pub proof fn law_interrupted_change_keeps_the_old_table(
    change: Pending,
    last: Option<(usize, u32)>,
    sector: Seq<u32>,
    words: int,
)
    requires
        change.wf(),
        nvcal::remembers(last, sector),
        !nvcal::must_erase(last, sector),
        0 <= words < nvcal::RECORD_WORDS,
    ensures
        CalibrationView::booted(nvcal::loaded(nvcal::stored(last, sector, change.spec_record(), words)))
            == CalibrationView::booted(nvcal::loaded(sector)),
{
    nvcal::law_interrupted_append_changes_nothing(last, sector, change.spec_record(), words);
}

// ---- What the tables are for --------------------------------------------

/// The numbers of the first column go up.
pub open spec fn climbs(points: Seq<(u32, u32)>) -> bool {
    &&& forall|i: int| 0 <= i < points.len() ==> !real32::nan((#[trigger] points[i]).0)
    &&& forall|i: int, j: int|
        #![trigger points[i], points[j]]
        0 <= i < j < points.len() ==> real32::value(points[i].0) < real32::value(points[j].0)
}

/// A reading is looked up on the line between the two points of its table that
/// it lies between, however long the table is. Below the first point it is the
/// first two, from the last point on the last two. A table of fewer than two
/// points has no line, and the range's own gain scales the reading.
pub proof fn law_reading_lies_between_its_points(
    found: Lookup,
    rms: u32,
    range: Range,
    points: Seq<(u32, u32)>,
    k: int,
)
    requires
        looks_up(found, rms, range, points),
        !real32::nan(rms),
        climbs(points),
    ensures
        points.len() < 2 ==> found == (Lookup::Scale { nominal: range.spec_nominal() as i32 }),
        points.len() >= 2 && real32::value(rms) < real32::value(points[0].0) ==> found == (Lookup::Line {
            from: points[0],
            to: points[1],
        }),
        points.len() >= 2 && real32::value(points.last().0) <= real32::value(rms) ==> found == (Lookup::Line {
            from: points[points.len() - 2],
            to: points[points.len() - 1],
        }),
        0 <= k < points.len() - 1 && real32::value(points[k].0) <= real32::value(rms) < real32::value(points[k + 1].0)
            ==> found == (Lookup::Line { from: points[k], to: points[k + 1] }),
{
    if points.len() >= 2 {
        let seg = choose|seg: int|
            {
                &&& #[trigger] is_segment(rms, points, seg)
                &&& found == (Lookup::Line { from: points[seg], to: points[seg + 1] })
            };
        assert(is_segment(rms, points, seg));
        assert(points.last() == points[points.len() - 1]);
        assert(!real32::nan(points[seg].0) && !real32::nan(points[seg + 1].0));
        if 0 <= k < points.len() - 1 && real32::value(points[k].0) <= real32::value(rms) < real32::value(
            points[k + 1].0,
        ) {
            assert(!real32::nan(points[k].0) && !real32::nan(points[k + 1].0));
            if seg < k {
                assert(real32::less(rms, points[seg + 1].0));
                assert(points[seg + 1] == points[k] || real32::value(points[seg + 1].0) < real32::value(points[k].0));
            } else if k < seg {
                assert(!real32::less(rms, points[k + 1].0));
            }
        }
        if real32::value(rms) < real32::value(points[0].0) && seg > 0 {
            assert(!real32::less(rms, points[1].0));
            assert(real32::value(points[0].0) < real32::value(points[1].0));
            assert(!real32::nan(points[1].0));
        }
        if real32::value(points.last().0) <= real32::value(rms) && seg < points.len() - 2 {
            assert(real32::less(rms, points[seg + 1].0));
            assert(real32::value(points[seg + 1].0) < real32::value(points[points.len() - 1].0));
        }
    }
}

/// So a reading inside its table lies between the two ends of its line.
pub proof fn law_line_brackets_its_reading(
    found: Lookup,
    rms: u32,
    range: Range,
    points: Seq<(u32, u32)>,
)
    requires
        looks_up(found, rms, range, points),
        !real32::nan(rms),
        climbs(points),
        points.len() >= 2,
        real32::value(points[0].0) <= real32::value(rms) < real32::value(points.last().0),
    ensures
        found matches Lookup::Line { from, to } && real32::value(from.0) <= real32::value(rms) < real32::value(to.0)
            && points.contains(from) && points.contains(to),
{
    let k = lemma_bracket(rms, points, points.len() - 1);
    law_reading_lies_between_its_points(found, rms, range, points, k);
    assert(points.contains(points[k]) && points.contains(points[k + 1]));
}

proof fn lemma_bracket(rms: u32, points: Seq<(u32, u32)>, top: int) -> (k: int)
    requires
        1 <= top < points.len(),
        real32::value(points[0].0) <= real32::value(rms) < real32::value(points[top].0),
    ensures
        0 <= k < top,
        real32::value(points[k].0) <= real32::value(rms) < real32::value(points[k + 1].0),
    decreases top,
{
    if real32::value(points[top - 1].0) <= real32::value(rms) {
        top - 1
    } else {
        lemma_bracket(rms, points, top - 1)
    }
}

/// Every table a reading is looked up on climbs, so what is said of lookups in
/// climbing tables holds of every reading.
pub proof fn law_tables_in_use_climb(cal: CalibrationView, range: Range)
    requires
        cal.wf(),
    ensures
        climbs(cal.table_for(range)),
        cal.field is Some && range == Range::Direct ==> cal.table_for(range).len() >= 2,
{
    law_built_in_tables_ascend(range);
    let points = cal.table_for(range);
    if cal.field is Some && range == Range::Direct {
        assert forall|i: int| 0 <= i < points.len() implies !real32::nan((#[trigger] points[i]).0) by {
            assert(usable_point(cal.field.unwrap().used()[i]));
        }
    }
}

/// A coordinate as the link may carry it: any finite number that is not below
/// zero, by its pattern. Negative zero is one.
pub open spec fn plain(bits: u32) -> bool {
    bits < 0x7F80_0000 || bits == 0x8000_0000
}

/// A point is accepted exactly if both of its coordinates are finite numbers
/// that are not below zero, however large.
pub proof fn law_every_plain_point_is_accepted(index: int, point: (u32, u32))
    ensures
        usable_point(point) <==> plain(point.0) && plain(point.1),
        acceptable(Sent { index, point }) <==> 0 <= index < 16 && plain(point.0) && plain(point.1),
{
    real32::law_patterns_are_numbers_below_infinity(point.0);
    real32::law_patterns_are_numbers_below_infinity(point.1);
}

/// The same by what the patterns stand for.
pub proof fn law_accepted_points_are_no_less_than_zero(point: (u32, u32))
    ensures
        usable_point(point) <==> {
            &&& real32::finite(point.0) && real32::value(point.0) >= 0
            &&& real32::finite(point.1) && real32::value(point.1) >= 0
        },
{
    real32::law_numbers_are_in_order(point.0, 0);
    real32::law_numbers_are_in_order(point.1, 0);
    real32::law_patterns_count_steps(0);
}

/// Any two to sixteen plain points whose numbers go up are a table the meter
/// can read on, and nothing else is.
pub proof fn law_plain_climbing_tables_are_valid(table: TableView)
    requires
        table.points.len() == 16,
        table.len <= 16,
    ensures
        table.valid() <==> {
            &&& table.len >= 2
            &&& forall|i: int| 0 <= i < table.len ==> plain((#[trigger] table.points[i]).0) && plain(table.points[i].1)
            &&& climbs(table.points.take(table.len as int))
        },
{
    let used = table.used();
    assert forall|i: int| 0 <= i < table.len implies used[i] == #[trigger] table.points[i] && (usable_point(used[i])
        <==> plain(table.points[i].0) && plain(table.points[i].1)) by {
        law_every_plain_point_is_accepted(0, table.points[i]);
    }
    if table.valid() {
        assert forall|i: int| 0 <= i < table.len implies plain((#[trigger] table.points[i]).0) && plain(
            table.points[i].1,
        ) by {
            assert(usable_point(used[i]));
        }
        assert forall|i: int| 0 <= i < used.len() implies !real32::nan((#[trigger] used[i]).0) by {
            assert(usable_point(used[i]));
        }
    }
    if climbs(used) {
        assert(ascending(used)) by {
            assert forall|i: int, j: int|
                #![trigger used[i], used[j]]
                0 <= i < j < used.len() implies real32::less(used[i].0, used[j].0) by {
                assert(!real32::nan(used[i].0) && !real32::nan(used[j].0));
            }
        }
    }
    if table.len >= 2 && climbs(used) && (forall|i: int|
        0 <= i < table.len ==> plain((#[trigger] table.points[i]).0) && plain(table.points[i].1)) {
        assert forall|i: int| 0 <= i < table.len implies usable_point(#[trigger] used[i]) by {
            assert(plain(table.points[i].0));
        }
    }
}

/// A commit is accepted exactly if it names two to sixteen points, the slots
/// written are the ones it names, and their numbers go up. Where the slots are
/// not the ones it names, points are missing; any other refusal is of the
/// order.
pub proof fn law_commit_takes_exactly_what_was_staged(cal: CalibrationView, count: int)
    requires
        cal.wf(),
        forall|i: int| 0 <= i < 16 && cal.marks[i] ==> plain((#[trigger] cal.staged[i]).0) && plain(cal.staged[i].1),
    ensures
        cal.refusal(count) is None <==> {
            &&& 2 <= count <= 16
            &&& forall|i: int| 0 <= i < 16 ==> #[trigger] cal.marks[i] == (i < count)
            &&& climbs(cal.staged.take(count))
        },
        cal.refusal(count) == Some(CalError::Missing) <==> {
            &&& 2 <= count <= 16
            &&& exists|i: int| 0 <= i < 16 && #[trigger] cal.marks[i] != (i < count)
        },
        cal.refusal(count) matches Some(e) ==> e == CalError::Missing || e == CalError::Order,
{
    if 2 <= count <= 16 {
        let table = cal.candidate(count);
        law_plain_climbing_tables_are_valid(table);
        if forall|i: int| 0 <= i < 16 ==> #[trigger] cal.marks[i] == (i < count) {
            assert(cal.complete(count));
            assert(!cal.exceeds(count));
            assert forall|i: int| 0 <= i < count implies plain((#[trigger] table.points[i]).0) && plain(
                table.points[i].1,
            ) by {
                assert(cal.marks[i]);
                assert(table.points[i] == cal.staged[i]);
            }
        } else {
            let i = choose|i: int| 0 <= i < 16 && #[trigger] cal.marks[i] != (i < count);
            assert(cal.marks[i] != (i < count));
            if i >= count {
                assert(cal.exceeds(count));
            } else {
                assert(!cal.complete(count));
            }
        }
        if !cal.complete(count) {
            let i = choose|i: int| 0 <= i < count && !#[trigger] cal.marks[i];
            assert(cal.marks[i] != (i < count));
        }
        if cal.exceeds(count) {
            let i = choose|i: int| count <= i < FIELD_MAX && #[trigger] cal.marks[i];
            assert(cal.marks[i] != (i < count));
        }
    }
}

/// Once a push has been committed, the plain wire is read on exactly the points
/// that were sent; every other range is read as before.
pub proof fn law_pushed_points_are_read_on(cal: CalibrationView, run: Seq<Sent>, change: Pending, count: int, gain: Gain)
    requires
        cal.wf(),
        2 <= count <= 16,
        forall|i: int| 0 <= i < run.len() ==> acceptable(#[trigger] run[i]),
        forall|at: int| 0 <= at < count ==> #[trigger] last_sent(run, at) is Some,
        change matches Pending::Install(table) && table@ == pushed(cal, run).candidate(count),
    ensures
        ({
            let points = change.outcome().table_for(Range::Direct);
            &&& points.len() == count
            &&& forall|at: int| 0 <= at < count ==> #[trigger] points[at] == last_sent(run, at).unwrap()
        }),
        change.outcome().table_for(Range::Pga(gain)) == cal.table_for(Range::Pga(gain)),
{
    let points = change.outcome().table_for(Range::Direct);
    law_staging_keeps_the_last_point(cal, run, 0);
    assert forall|at: int| 0 <= at < count implies #[trigger] points[at] == last_sent(run, at).unwrap() by {
        assert(last_sent(run, at) is Some);
        law_staging_keeps_the_last_point(cal, run, at);
    }
}

/// Without a field table, or once it is cleared, every range is read as it was
/// before the first push.
pub proof fn law_clearing_goes_back_to_the_built_in_tables(range: Range)
    ensures
        Pending::Clear.outcome() == CalibrationView::fresh(),
        CalibrationView::fresh().table_for(range) == built_in(range),
        Pending::Clear.spec_record().len == 0,
{
}

/// A table found in flash is read on if it climbs and is plain, and dropped
/// otherwise; either way no point is staged.
pub proof fn law_flash_is_believed_only_if_it_climbs(found: TableView, at: int)
    requires
        found.points.len() == 16,
        found.len <= 16,
        0 <= at < 16,
    ensures
        CalibrationView::booted(Some(found)).field == Some(found) <==> {
            &&& found.len >= 2
            &&& forall|i: int| 0 <= i < found.len ==> plain((#[trigger] found.points[i]).0) && plain(found.points[i].1)
            &&& climbs(found.points.take(found.len as int))
        },
        CalibrationView::booted(Some(found)).field matches Some(table) ==> table == found,
        CalibrationView::booted(None).field is None,
        !CalibrationView::booted(Some(found)).marks[at],
{
    law_plain_climbing_tables_are_valid(found);
}

/// A built-in table passes its check exactly if no coordinate is NaN and the
/// numbers of both columns go up.
pub proof fn law_both_columns_climb(points: Seq<(u32, u32)>)
    ensures
        strictly_ascending(points) && all_numbers(points) <==> {
            &&& forall|i: int| 0 <= i < points.len() ==> !real32::nan((#[trigger] points[i]).1)
            &&& climbs(points)
            &&& forall|i: int, j: int|
                #![trigger points[i], points[j]]
                0 <= i < j < points.len() ==> real32::value(points[i].1) < real32::value(points[j].1)
        },
{
    if strictly_ascending(points) && all_numbers(points) {
        assert forall|i: int, j: int|
            #![trigger points[i], points[j]]
            0 <= i < j < points.len() implies real32::value(points[i].0) < real32::value(points[j].0) && real32::value(
            points[i].1,
        ) < real32::value(points[j].1) by {
            assert(real32::less(points[i].0, points[j].0));
        }
    }
    if climbs(points) && (forall|i: int| 0 <= i < points.len() ==> !real32::nan((#[trigger] points[i]).1)) {
        assert(all_numbers(points));
    }
}

/// A point is staged exactly if its slot is one of the sixteen and both of its
/// coordinates are plain; the slot is what is wrong with it first.
pub proof fn law_plain_points_are_staged(index: int, point: (u32, u32))
    requires
        index >= 0,
    ensures
        point_error(index, point) is None <==> index < 16 && plain(point.0) && plain(point.1),
        point_error(index, point) == Some(CalError::Index) <==> index >= 16,
        point_error(index, point) == Some(CalError::Value) <==> index < 16 && !(plain(point.0) && plain(point.1)),
{
    law_every_plain_point_is_accepted(index, point);
}

} // verus!
