pub mod augment;
pub mod bin_mapper;
pub mod bins;
pub mod builder;
pub mod laws;

pub use bin_mapper::{BinMapper, Binning};

use vstd::prelude::*;

use crate::dataset::augment::{append_masked, with_copies};
use crate::number::Wide;

verus! {

/// Bin code reserved for missing values.
pub const MISSING_BIN: u16 = 0;

/// Per-element type for bin-encoded column data, so that one loop serves `u8`
/// and `u16` columns.
pub trait Bin: Copy + PartialEq + PartialOrd + Send + Sync + 'static {
    const MISSING: Self;

    /// The bin code that this element stands for.
    spec fn code(self) -> u16;

    /// The part of a bin code that this type can hold.
    spec fn kept(v: u16) -> u16;

    fn as_usize(self) -> (r: usize)
        ensures
            r == self.code(),
    ;

    /// Narrow a bin code to this type. Codes above 255 are truncated for `u8`,
    /// so only columns with at most 256 bins are stored that way.
    fn from_u16(v: u16) -> (r: Self)
        ensures
            r.code() == Self::kept(v),
    ;
}

impl Bin for u8 {
    const MISSING: Self = 0;

    open spec fn code(self) -> u16 {
        self as u16
    }

    open spec fn kept(v: u16) -> u16 {
        (v % 256) as u16
    }

    fn as_usize(self) -> (r: usize) {
        self as usize
    }

    fn from_u16(v: u16) -> (r: Self) {
        (v % 256) as u8
    }
}

impl Bin for u16 {
    const MISSING: Self = 0;

    open spec fn code(self) -> u16 {
        self
    }

    open spec fn kept(v: u16) -> u16 {
        v
    }

    fn as_usize(self) -> (r: usize) {
        self as usize
    }

    fn from_u16(v: u16) -> (r: Self) {
        v
    }
}

/// Storage width of binned column data.
#[derive(Debug, Clone, Copy, PartialEq, Eq, Structural)]
pub enum BinWidth {
    U8,
    U16,
}

/// Column-major bin codes. All columns share one width.
#[derive(Debug, Clone)]
pub enum BinData {
    U8(Vec<Vec<u8>>),
    U16(Vec<Vec<u16>>),
}

/// The bin codes of a column.
pub open spec fn codes_of<B: Bin>(column: Seq<B>) -> Seq<u16> {
    Seq::new(column.len(), |r: int| column[r].code())
}

/// The bin codes of every column.
pub open spec fn all_codes<B: Bin>(columns: Seq<Vec<B>>) -> Seq<Seq<u16>> {
    Seq::new(columns.len(), |f: int| codes_of(columns[f]@))
}

/// The bin codes of one row of a column-major matrix.
pub open spec fn row_codes(columns: Seq<Seq<u16>>, row: int) -> Seq<u16> {
    Seq::new(columns.len(), |f: int| columns[f][row])
}

impl BinData {
    /// The stored bin codes, `codes()[feature][row]`.
    pub open spec fn codes(self) -> Seq<Seq<u16>> {
        match self {
            BinData::U8(v) => all_codes(v@),
            BinData::U16(v) => all_codes(v@),
        }
    }

    pub open spec fn stored_width(self) -> BinWidth {
        match self {
            BinData::U8(_) => BinWidth::U8,
            BinData::U16(_) => BinWidth::U16,
        }
    }

    pub fn width(&self) -> (r: BinWidth)
        ensures
            r == self.stored_width(),
    {
        match self {
            BinData::U8(_) => BinWidth::U8,
            BinData::U16(_) => BinWidth::U16,
        }
    }

    pub fn n_features(&self) -> (r: usize)
        ensures
            r == self.codes().len(),
    {
        match self {
            BinData::U8(v) => v.len(),
            BinData::U16(v) => v.len(),
        }
    }
}

/// Bin-encoded training dataset, column-major.
#[derive(Debug, Clone)]
pub struct Dataset<W: Wide> {
    pub(crate) n_rows: usize,
    pub(crate) n_features: usize,
    pub(crate) bin_data: BinData,
    pub(crate) bin_mappers: Vec<BinMapper<W>>,
    pub(crate) labels: Vec<W::Narrow>,
}

/// What a [`Dataset`] holds: bin codes by feature and row, one binning per
/// feature, one label per row.
#[verifier::ext_equal]
pub struct Table<W: Wide> {
    pub rows: nat,
    pub codes: Seq<Seq<u16>>,
    pub binnings: Seq<Binning<W>>,
    pub labels: Seq<W::Narrow>,
}

impl<W: Wide> Table<W> {
    /// Every column has one code per row, each within the bins of its feature,
    /// every row has a label, and every binning is valid.
    pub open spec fn valid(self) -> bool {
        &&& self.binnings.len() == self.codes.len()
        &&& self.labels.len() == self.rows
        &&& forall|f: int|
            0 <= f < self.codes.len() ==> (#[trigger] self.codes[f]).len() == self.rows
        &&& forall|f: int, r: int|
            #![trigger self.codes[f][r]]
            0 <= f < self.codes.len() && 0 <= r < self.rows ==> self.codes[f][r]
                < self.binnings[f].bins()
        &&& forall|f: int| 0 <= f < self.codes.len() ==> (#[trigger] self.binnings[f]).valid()
    }
}

/// The binnings of a list of mappers.
pub open spec fn binnings_of<W: Wide>(mappers: Seq<BinMapper<W>>) -> Seq<Binning<W>> {
    Seq::new(mappers.len(), |f: int| mappers[f]@)
}

impl<W: Wide> View for Dataset<W> {
    type V = Table<W>;

    closed spec fn view(&self) -> Table<W> {
        Table {
            rows: self.n_rows as nat,
            codes: self.bin_data.codes(),
            binnings: binnings_of(self.bin_mappers@),
            labels: self.labels@,
        }
    }
}

impl<W: Wide> Dataset<W> {
    /// The stored counts agree with the stored columns, and the table is valid.
    pub closed spec fn wf(&self) -> bool {
        &&& self.n_features == self.bin_data.codes().len()
        &&& self@.valid()
    }
}

impl<W: Wide> Dataset<W> {
    pub fn n_rows(&self) -> (r: usize)
        ensures
            r == self@.rows,
    {
        self.n_rows
    }

    pub fn n_features(&self) -> (r: usize)
        requires
            self.wf(),
        ensures
            r == self@.codes.len(),
    {
        self.n_features
    }

    pub fn labels(&self) -> (r: &[W::Narrow])
        ensures
            r@ == self@.labels,
    {
        self.labels.as_slice()
    }

    /// The width in which the bin codes are stored.
    pub closed spec fn stored_width(&self) -> BinWidth {
        self.bin_data.stored_width()
    }

    pub fn bin_width(&self) -> (r: BinWidth)
        ensures
            r == self.stored_width(),
    {
        self.bin_data.width()
    }

    /// The stored bin codes.
    pub(crate) fn data(&self) -> (r: &BinData)
        ensures
            r.codes() == self@.codes,
            r.stored_width() == self.stored_width(),
    {
        &self.bin_data
    }

    /// Get a `u8` column.
    pub fn feature_column_u8(&self, feat: usize) -> (r: &[u8])
        requires
            self.stored_width() == BinWidth::U8,
            feat < self@.codes.len(),
        ensures
            codes_of(r@) == self@.codes[feat as int],
    {
        match &self.bin_data {
            BinData::U8(v) => v[feat].as_slice(),
            BinData::U16(_) => {
                assert(false);
                &[]
            },
        }
    }

    /// Get a `u16` column.
    pub fn feature_column_u16(&self, feat: usize) -> (r: &[u16])
        requires
            self.stored_width() == BinWidth::U16,
            feat < self@.codes.len(),
        ensures
            codes_of(r@) == self@.codes[feat as int],
    {
        match &self.bin_data {
            BinData::U16(v) => v[feat].as_slice(),
            BinData::U8(_) => {
                assert(false);
                &[]
            },
        }
    }

    /// Read a single bin code.
    pub fn feature_bin(&self, feat: usize, row: usize) -> (r: u16)
        requires
            feat < self@.codes.len(),
            row < self@.codes[feat as int].len(),
        ensures
            r == self@.codes[feat as int][row as int],
    {
        match &self.bin_data {
            BinData::U8(v) => v[feat][row] as u16,
            BinData::U16(v) => v[feat][row],
        }
    }

    pub fn bin_mapper(&self, feat: usize) -> (r: &BinMapper<W>)
        requires
            feat < self@.binnings.len(),
        ensures
            r@ == self@.binnings[feat as int],
    {
        &self.bin_mappers[feat]
    }

    pub fn bin_mappers(&self) -> (r: &[BinMapper<W>])
        ensures
            binnings_of(r@) == self@.binnings,
    {
        self.bin_mappers.as_slice()
    }

    /// A dataset from its parts.
    pub(crate) fn assemble(
        n_rows: usize,
        n_features: usize,
        bin_data: BinData,
        bin_mappers: Vec<BinMapper<W>>,
        labels: Vec<W::Narrow>,
    ) -> (ds: Self)
        ensures
            ds@ == (Table {
                rows: n_rows as nat,
                codes: bin_data.codes(),
                binnings: binnings_of(bin_mappers@),
                labels: labels@,
            }),
            ds.stored_width() == bin_data.stored_width(),
            n_features == bin_data.codes().len() && ds@.valid() ==> ds.wf(),
    {
        Dataset { n_rows, n_features, bin_data, bin_mappers, labels }
    }

    /// Append the planned copies of rows.
    pub(crate) fn append_copies(&mut self, plan: &Vec<(usize, usize)>)
        requires
            old(self).wf(),
            old(self)@.rows + plan@.len() <= usize::MAX,
            forall|k: int| 0 <= k < plan@.len() ==> (#[trigger] plan@[k]).0 < old(self)@.rows,
        ensures
            final(self).wf(),
            final(self)@ == with_copies(old(self)@, plan@),
            final(self).stored_width() == old(self).stored_width(),
    {
        let ghost before = self@;
        proof {
            assert forall|f: int, k: int|
                #![trigger before.codes[f], plan@[k]]
                0 <= f < before.codes.len() && 0 <= k < plan@.len() implies plan@[k].0
                < before.codes[f].len() by {}
        }
        match &mut self.bin_data {
            BinData::U8(cols) => {
                proof {
                    assert forall|f: int, k: int|
                        #![trigger cols@[f], plan@[k]]
                        0 <= f < cols@.len() && 0 <= k < plan@.len() implies plan@[k].0
                        < cols@[f]@.len() by {
                        assert(before.codes[f].len() == before.rows);
                    }
                }
                append_masked(cols, plan, 0u8);
            },
            BinData::U16(cols) => {
                proof {
                    assert forall|f: int, k: int|
                        #![trigger cols@[f], plan@[k]]
                        0 <= f < cols@.len() && 0 <= k < plan@.len() implies plan@[k].0
                        < cols@[f]@.len() by {
                        assert(before.codes[f].len() == before.rows);
                    }
                }
                append_masked(cols, plan, 0u16);
            },
        }
        let ghost after = with_copies(before, plan@);
        assert(self.bin_data.codes() =~= after.codes);
        let mut k: usize = 0;
        while k < plan.len()
            invariant
                k <= plan@.len(),
                self.n_rows == before.rows,
                self.n_features == before.codes.len(),
                self.bin_data.codes() == after.codes,
                self.bin_data.stored_width() == old(self).bin_data.stored_width(),
                binnings_of(self.bin_mappers@) == before.binnings,
                after == with_copies(before, plan@),
                before.labels.len() == before.rows,
                forall|k: int| 0 <= k < plan@.len() ==> (#[trigger] plan@[k]).0 < before.rows,
                self.labels@ =~= before.labels + Seq::new(
                    k as nat,
                    |k: int| before.labels[plan@[k].0 as int],
                ),
            decreases plan@.len() - k,
        {
            assert(plan@[k as int].0 < before.rows);
            let label: W::Narrow = self.labels[plan[k].0];
            self.labels.push(label);
            k = k + 1;
        }
        self.n_rows = self.n_rows + plan.len();
        proof {
            assert(self@ =~= after);
            assert forall|f: int, r: int|
                #![trigger after.codes[f][r]]
                0 <= f < after.codes.len() && 0 <= r < after.rows implies after.codes[f][r]
                < after.binnings[f].bins() by {
                assert(before.codes[f].len() == before.rows);
                if r < before.rows {
                    assert(after.codes[f][r] == before.codes[f][r]);
                } else {
                    let k = r - before.rows;
                    assert(plan@[k].0 < before.rows);
                    assert(before.codes[f][plan@[k].0 as int] < before.binnings[f].bins());
                }
            }
            assert forall|f: int| 0 <= f < after.codes.len() implies (
            #[trigger] after.codes[f]).len() == after.rows by {
                assert(before.codes[f].len() == before.rows);
            }
            assert forall|f: int| 0 <= f < after.codes.len() implies (
            #[trigger] after.binnings[f]).valid() by {
                assert(before.binnings[f].valid());
            }
        }
    }

    pub proof fn lemma_wf(&self)
        requires
            self.wf(),
        ensures
            self@.valid(),
            self@.codes.len() <= usize::MAX,
            self@.rows <= usize::MAX,
    {
    }
}

} // verus!
