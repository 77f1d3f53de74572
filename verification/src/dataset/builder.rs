use vstd::prelude::*;
use vstd::slice::slice_to_vec;
use vstd::string::StringExecFns;

use crate::dataset::bin_mapper::{bounds_of, categorical_binning, numeric_binning, BinMapper, Binning};
use crate::dataset::{all_codes, binnings_of, codes_of, Bin, BinData, BinWidth, Dataset, Table};
use crate::error::{Error, Result};
use crate::number::Wide;
use crate::text::{decimal, decimal_of};

verus! {

/// How the columns of a dataset are binned.
pub struct Caps {
    /// Cap on the bins of a numeric column.
    pub max_bin: usize,
    /// Cap on the bins of a categorical column.
    pub max_cat_bins: usize,
    pub min_data_in_bin: usize,
}

/// The contents of a list of columns.
pub open spec fn columns_of<W>(columns: Seq<Vec<W>>) -> Seq<Seq<W>> {
    Seq::new(columns.len(), |f: int| columns[f]@)
}

/// The binning that is fitted to one column.
pub open spec fn fitted<W: Wide>(values: Seq<W>, categorical: bool, caps: Caps) -> Binning<W> {
    if categorical {
        categorical_binning(values, caps.max_cat_bins)
    } else {
        numeric_binning(bounds_of(values, caps.max_bin, caps.min_data_in_bin))
    }
}

/// The binnings that are fitted to all columns.
pub open spec fn all_fitted<W: Wide>(
    columns: Seq<Seq<W>>,
    categorical: Seq<bool>,
    caps: Caps,
) -> Seq<Binning<W>> {
    Seq::new(columns.len(), |f: int| fitted(columns[f], categorical[f], caps))
}

/// The bin codes of a column of raw values.
pub open spec fn encoded<W: Wide>(binning: Binning<W>, values: Seq<W>) -> Seq<u16> {
    Seq::new(values.len(), |r: int| binning.code_of(values[r]))
}

/// The dataset that columns of raw values become under given binnings.
pub open spec fn coded_table<W: Wide>(
    columns: Seq<Seq<W>>,
    binnings: Seq<Binning<W>>,
    labels: Seq<W::Narrow>,
) -> Table<W> {
    Table {
        rows: columns[0].len(),
        codes: Seq::new(columns.len(), |f: int| encoded(binnings[f], columns[f])),
        binnings,
        labels,
    }
}

/// The dataset that columns of raw values become under the binnings that are
/// fitted to them.
pub open spec fn table_of<W: Wide>(
    columns: Seq<Seq<W>>,
    categorical: Seq<bool>,
    caps: Caps,
    labels: Seq<W::Narrow>,
) -> Table<W> {
    coded_table(columns, all_fitted(columns, categorical, caps), labels)
}

/// Codes are stored as bytes when every column has at most 256 bins.
pub open spec fn width_for<W: Wide>(binnings: Seq<Binning<W>>) -> BinWidth {
    if forall|f: int| 0 <= f < binnings.len() ==> (#[trigger] binnings[f]).bins() <= 256 {
        BinWidth::U8
    } else {
        BinWidth::U16
    }
}

/// The first column from `from` on whose length is not `rows`.
pub open spec fn first_ragged<W>(columns: Seq<Seq<W>>, rows: nat, from: int) -> Option<int>
    decreases columns.len() - from,
{
    if from >= columns.len() {
        None
    } else if columns[from].len() != rows {
        Some(from)
    } else {
        first_ragged(columns, rows, from + 1)
    }
}

/// What is wrong with the shape of the data.
pub open spec fn shape_problem<W>(columns: Seq<Seq<W>>, labels: nat) -> Option<Seq<char>> {
    if columns.len() == 0 {
        Some("no features"@)
    } else if labels != columns[0].len() {
        Some("labels len "@ + decimal_of(labels) + " != n_rows "@ + decimal_of(columns[0].len()))
    } else {
        match first_ragged(columns, columns[0].len(), 0) {
            Some(i) => Some(
                "column "@ + decimal_of(i as nat) + " has len "@ + decimal_of(columns[i].len())
                    + ", expected "@ + decimal_of(columns[0].len()),
            ),
            None => None,
        }
    }
}

fn check_columns<W: Wide>(columns: &Vec<Vec<W>>, labels: &[W::Narrow]) -> (r: Result<usize>)
    ensures
        match r {
            Ok(n) => {
                &&& shape_problem(columns_of(columns@), labels@.len()) is None
                &&& columns@.len() > 0
                &&& n == columns@[0]@.len() == labels@.len()
                &&& forall|f: int| 0 <= f < columns@.len() ==> (#[trigger] columns@[f])@.len() == n
            },
            Err(Error::Shape(m)) => shape_problem(columns_of(columns@), labels@.len()) == Some(m@),
            Err(_) => false,
        },
{
    let ghost all = columns_of(columns@);
    if columns.len() == 0 {
        return Err(Error::Shape("no features".to_owned()));
    }
    let n_rows: usize = columns[0].len();
    assert(all[0] == columns@[0]@);
    if labels.len() != n_rows {
        let m: String = "labels len ".to_owned().concat(decimal(labels.len() as u128).as_str()).concat(
            " != n_rows ",
        ).concat(decimal(n_rows as u128).as_str());
        return Err(Error::Shape(m));
    }
    let mut i: usize = 0;
    while i < columns.len()
        invariant
            i <= columns@.len(),
            all == columns_of(columns@),
            all[0].len() == n_rows == labels@.len(),
            columns@.len() > 0,
            first_ragged(all, n_rows as nat, 0) == first_ragged(all, n_rows as nat, i as int),
            forall|f: int| 0 <= f < i ==> (#[trigger] columns@[f])@.len() == n_rows,
        decreases columns@.len() - i,
    {
        assert(all[i as int] == columns@[i as int]@);
        let len: usize = columns[i].len();
        if len != n_rows {
            let m: String = "column ".to_owned().concat(decimal(i as u128).as_str()).concat(
                " has len ",
            ).concat(decimal(len as u128).as_str()).concat(", expected ").concat(decimal(n_rows as u128).as_str());
            return Err(Error::Shape(m));
        }
        i = i + 1;
    }
    Ok(n_rows)
}

/// A column with more than 256 bins needs the wide codes.
fn choose_width<W: Wide>(mappers: &Vec<BinMapper<W>>) -> (r: BinWidth)
    requires
        forall|f: int| 0 <= f < mappers@.len() ==> (#[trigger] mappers@[f])@.bins() <= 0x10000,
    ensures
        r == width_for(binnings_of(mappers@)),
{
    let ghost all = binnings_of(mappers@);
    let mut i: usize = 0;
    while i < mappers.len()
        invariant
            i <= mappers@.len(),
            all == binnings_of(mappers@),
            forall|f: int| 0 <= f < mappers@.len() ==> (#[trigger] mappers@[f])@.bins() <= 0x10000,
            forall|f: int| 0 <= f < i ==> (#[trigger] all[f]).bins() <= 256,
        decreases mappers@.len() - i,
    {
        assert(all[i as int] == mappers@[i as int]@);
        if mappers[i].num_bins() > 256 {
            return BinWidth::U16;
        }
        i = i + 1;
    }
    BinWidth::U8
}

fn encode_column<W: Wide, B: Bin>(values: &Vec<W>, mapper: &BinMapper<W>) -> (r: Vec<B>)
    requires
        mapper@.valid(),
        forall|c: u16| c < mapper@.bins() ==> #[trigger] B::kept(c) == c,
    ensures
        codes_of(r@) == encoded(mapper@, values@),
{
    let mut r: Vec<B> = Vec::with_capacity(values.len());
    let mut i: usize = 0;
    while i < values.len()
        invariant
            i <= values@.len(),
            mapper@.valid(),
            forall|c: u16| c < mapper@.bins() ==> #[trigger] B::kept(c) == c,
            codes_of(r@) =~= encoded(mapper@, values@).take(i as int),
        decreases values@.len() - i,
    {
        let code: u16 = mapper.value_to_bin(values[i]);
        let ghost before = r@;
        r.push(B::from_u16(code));
        proof {
            assert(codes_of(r@) =~= codes_of(before).push(r@[i as int].code()));
        }
        i = i + 1;
    }
    r
}

/// Bin-encode each column with its fitted [`BinMapper`], dropping each raw
/// column as soon as it is encoded.
fn encode_and_consume<W: Wide, B: Bin>(
    columns: Vec<Vec<W>>,
    mappers: &Vec<BinMapper<W>>,
) -> (out: Vec<Vec<B>>)
    requires
        mappers@.len() == columns@.len(),
        forall|f: int| 0 <= f < mappers@.len() ==> (#[trigger] mappers@[f])@.valid(),
        forall|f: int, c: u16|
            #![trigger mappers@[f], B::kept(c)]
            0 <= f < mappers@.len() && c < mappers@[f]@.bins() ==> B::kept(c) == c,
    ensures
        all_codes(out@) == Seq::new(
            columns@.len(),
            |f: int| encoded(mappers@[f]@, columns@[f]@),
        ),
{
    let mut rest: Vec<Vec<W>> = columns;
    let mut out: Vec<Vec<B>> = Vec::with_capacity(rest.len());
    let mut i: usize = 0;
    while i < rest.len()
        invariant
            i <= rest@.len() == columns@.len() == mappers@.len(),
            forall|f: int| i <= f < rest@.len() ==> #[trigger] rest@[f] == columns@[f],
            forall|f: int| 0 <= f < mappers@.len() ==> (#[trigger] mappers@[f])@.valid(),
            forall|f: int, c: u16|
                #![trigger mappers@[f], B::kept(c)]
                0 <= f < mappers@.len() && c < mappers@[f]@.bins() ==> B::kept(c) == c,
            out@.len() == i,
            forall|f: int|
                0 <= f < i ==> codes_of((#[trigger] out@[f])@) == encoded(
                    mappers@[f]@,
                    columns@[f]@,
                ),
        decreases rest@.len() - i,
    {
        let mut column: Vec<W> = Vec::new();
        std::mem::swap(&mut rest[i], &mut column);
        out.push(encode_column::<W, B>(&column, &mappers[i]));
        i = i + 1;
    }
    assert(all_codes(out@) =~= Seq::new(
        columns@.len(),
        |f: int| encoded(mappers@[f]@, columns@[f]@),
    ));
    out
}

fn fit_all<W: Wide>(
    columns: &Vec<Vec<W>>,
    max_bin: usize,
    max_cat_bins: usize,
    categorical: &[bool],
    min_data_in_bin: usize,
) -> (r: Vec<BinMapper<W>>)
    requires
        categorical@.len() == columns@.len(),
        max_bin <= 0x10000,
        max_cat_bins <= 0x10000,
    ensures
        r@.len() == columns@.len(),
        forall|f: int|
            0 <= f < r@.len() ==> (#[trigger] r@[f])@ == fitted(
                columns@[f]@,
                categorical@[f],
                (Caps { max_bin, max_cat_bins, min_data_in_bin }),
            ),
        forall|f: int| 0 <= f < r@.len() ==> (#[trigger] r@[f])@.valid(),
{
    let mut r: Vec<BinMapper<W>> = Vec::with_capacity(columns.len());
    let mut i: usize = 0;
    while i < columns.len()
        invariant
            i <= columns@.len() == categorical@.len(),
            max_bin <= 0x10000,
            max_cat_bins <= 0x10000,
            r@.len() == i,
            forall|f: int|
                0 <= f < i ==> (#[trigger] r@[f])@ == fitted(
                    columns@[f]@,
                    categorical@[f],
                    (Caps { max_bin, max_cat_bins, min_data_in_bin }),
                ),
            forall|f: int| 0 <= f < i ==> (#[trigger] r@[f])@.valid(),
        decreases columns@.len() - i,
    {
        let mapper: BinMapper<W> = if categorical[i] {
            BinMapper::fit_categorical(columns[i].as_slice(), max_cat_bins)
        } else {
            BinMapper::fit(columns[i].as_slice(), max_bin, min_data_in_bin)
        };
        r.push(mapper);
        i = i + 1;
    }
    r
}

/// Build a binned [`Dataset`] from column-major data.
///
/// Numeric columns are capped at `max_bin`, categorical columns at
/// `max_cat_bins` (each column gets its own [`BinMapper`]). Codes are stored as
/// bytes when the widest fitted column fits, so the width is decided from the
/// fitted bins, not from the caps.
pub fn build_dataset<W: Wide>(
    columns: Vec<Vec<W>>,
    max_bin: usize,
    max_cat_bins: usize,
    categorical: &[bool],
    min_data_in_bin: usize,
    labels: &[W::Narrow],
) -> (r: Result<Dataset<W>>)
    requires
        categorical@.len() == columns@.len(),
        max_bin <= 0x10000,
        max_cat_bins <= 0x10000,
    ensures
        match r {
            Ok(ds) => {
                &&& shape_problem(columns_of(columns@), labels@.len()) is None
                &&& ds.wf()
                &&& ds@ == table_of(
                    columns_of(columns@),
                    categorical@,
                    (Caps { max_bin, max_cat_bins, min_data_in_bin }),
                    labels@,
                )
                &&& ds.stored_width() == width_for(ds@.binnings)
            },
            Err(Error::Shape(m)) => shape_problem(columns_of(columns@), labels@.len()) == Some(m@),
            Err(_) => false,
        },
{
    let ghost all = columns_of(columns@);
    let ghost caps = Caps { max_bin, max_cat_bins, min_data_in_bin };
    let n_rows: usize = match check_columns(&columns, labels) {
        Ok(n) => n,
        Err(e) => {
            return Err(e);
        },
    };
    let bin_mappers: Vec<BinMapper<W>> = fit_all(
        &columns,
        max_bin,
        max_cat_bins,
        categorical,
        min_data_in_bin,
    );
    proof {
        let binnings = binnings_of(bin_mappers@);
        assert(binnings =~= all_fitted(all, categorical@, caps)) by {
            assert forall|f: int| 0 <= f < binnings.len() implies #[trigger] binnings[f]
                == all_fitted(all, categorical@, caps)[f] by {
                assert(bin_mappers@[f]@ == fitted(columns@[f]@, categorical@[f], caps));
            }
        }
    }
    Ok(encode(columns, n_rows, bin_mappers, labels))
}

/// Build a binned [`Dataset`] from column-major data with mappers that were
/// fitted to other data. Tree thresholds are codes of the mappers that a tree was
/// trained with, so data that it is to be held against is binned with those.
pub fn code_dataset<W: Wide>(
    columns: Vec<Vec<W>>,
    bin_mappers: &[BinMapper<W>],
    labels: &[W::Narrow],
) -> (r: Result<Dataset<W>>)
    requires
        bin_mappers@.len() == columns@.len(),
        forall|f: int| 0 <= f < bin_mappers@.len() ==> (#[trigger] bin_mappers@[f])@.valid(),
    ensures
        match r {
            Ok(ds) => {
                &&& shape_problem(columns_of(columns@), labels@.len()) is None
                &&& ds.wf()
                &&& ds@ == coded_table(columns_of(columns@), binnings_of(bin_mappers@), labels@)
                &&& ds.stored_width() == width_for(ds@.binnings)
            },
            Err(Error::Shape(m)) => shape_problem(columns_of(columns@), labels@.len()) == Some(m@),
            Err(_) => false,
        },
{
    let n_rows: usize = match check_columns(&columns, labels) {
        Ok(n) => n,
        Err(e) => {
            return Err(e);
        },
    };
    let copies: Vec<BinMapper<W>> = copied_mappers(bin_mappers);
    proof {
        assert forall|f: int| 0 <= f < copies@.len() implies (#[trigger] copies@[f])@.valid() by {
            assert(binnings_of(copies@)[f] == binnings_of(bin_mappers@)[f]);
        }
    }
    Ok(encode(columns, n_rows, copies, labels))
}

pub(crate) fn copied_mappers<W: Wide>(mappers: &[BinMapper<W>]) -> (r: Vec<BinMapper<W>>)
    ensures
        r@.len() == mappers@.len(),
        binnings_of(r@) == binnings_of(mappers@),
{
    let mut r: Vec<BinMapper<W>> = Vec::with_capacity(mappers.len());
    let mut f: usize = 0;
    while f < mappers.len()
        invariant
            f <= mappers@.len(),
            r@.len() == f,
            forall|g: int| 0 <= g < f ==> (#[trigger] r@[g])@ == mappers@[g]@,
        decreases mappers@.len() - f,
    {
        r.push(mappers[f].copy());
        f = f + 1;
    }
    assert(binnings_of(r@) =~= binnings_of(mappers@));
    r
}

/// Bin-encode columns of equal length. The mappers come first: the storage width
/// depends on the bins they use.
fn encode<W: Wide>(
    columns: Vec<Vec<W>>,
    n_rows: usize,
    bin_mappers: Vec<BinMapper<W>>,
    labels: &[W::Narrow],
) -> (ds: Dataset<W>)
    requires
        columns@.len() > 0,
        bin_mappers@.len() == columns@.len(),
        forall|f: int| 0 <= f < bin_mappers@.len() ==> (#[trigger] bin_mappers@[f])@.valid(),
        forall|f: int| 0 <= f < columns@.len() ==> (#[trigger] columns@[f])@.len() == n_rows,
        labels@.len() == n_rows,
    ensures
        ds.wf(),
        ds@ == coded_table(columns_of(columns@), binnings_of(bin_mappers@), labels@),
        ds.stored_width() == width_for(ds@.binnings),
{
    let ghost all = columns_of(columns@);
    let n_features: usize = columns.len();
    let width: BinWidth = choose_width(&bin_mappers);
    let ghost binnings = binnings_of(bin_mappers@);
    proof {
        if width == BinWidth::U8 {
            assert forall|f: int, c: u16|
                #![trigger bin_mappers@[f], u8::kept(c)]
                0 <= f < bin_mappers@.len() && c < bin_mappers@[f]@.bins() implies u8::kept(c)
                == c by {
                assert(binnings[f].bins() <= 256);
            }
        }
    }
    let bin_data: BinData = match width {
        BinWidth::U8 => BinData::U8(encode_and_consume::<W, u8>(columns, &bin_mappers)),
        BinWidth::U16 => BinData::U16(encode_and_consume::<W, u16>(columns, &bin_mappers)),
    };
    let ds = Dataset::assemble(n_rows, n_features, bin_data, bin_mappers, slice_to_vec(labels));
    proof {
        let table = coded_table(all, binnings, labels@);
        assert(all[0] == columns@[0]@);
        assert(ds@.codes =~= table.codes);
        assert(ds@ =~= table);
        assert forall|f: int| 0 <= f < ds@.codes.len() implies (#[trigger] ds@.codes[f]).len()
            == ds@.rows by {
            assert(columns@[f]@.len() == n_rows);
        }
        assert forall|f: int, r: int|
            #![trigger ds@.codes[f][r]]
            0 <= f < ds@.codes.len() && 0 <= r < ds@.rows implies ds@.codes[f][r]
            < ds@.binnings[f].bins() by {
            assert(bin_mappers@[f]@.valid());
            assert(columns@[f]@.len() == n_rows);
            bin_mappers@[f]@.lemma_code_in_range(columns@[f]@[r]);
        }
        assert forall|f: int| 0 <= f < ds@.codes.len() implies (
        #[trigger] ds@.binnings[f]).valid() by {
            assert(bin_mappers@[f]@.valid());
        }
        assert(ds@.valid());
    }
    ds
}

} // verus!
