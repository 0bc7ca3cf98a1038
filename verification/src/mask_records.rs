//! The records that hold the layers of a mask.
//!
//! There is one record per filled layer, bottom first. A record is the number of runs, the bounds of
//! the area (from the second version on), where each run starts inside the bounds, counted row by
//! row, and how long each run is. All numbers are little-endian.
use crate::affected_layer::AffectedLayer;
use crate::color::{color_at_position, position_color};
use crate::layer_stack::{
    area_models, entry_model, entry_models, filled_entries, filled_layers, is_filled,
    PixelAreaStack,
};
use crate::pixel_area::{LayerModel, PixelArea};
use crate::ranges::{hugging_roi_is_unique, Roi, SortedRanges};
use crate::render::{lemma_runs_of, runs_of};
use crate::span::{canonical, pixels, Span};
use vstd::prelude::*;

verus! {

/// The version that is written.
pub const VERSION: u16 = 2;

/// Why a mask file could not be read.
#[derive(Debug, Clone, Copy, PartialEq, Eq, Structural)]
pub enum DecodeError {
    /// The file ends before the preamble and the version do.
    TruncatedHeader,
    InvalidPreamble,
    UnsupportedVersion(u16),
    /// The data ends inside a record.
    TruncatedRecord,
    /// The compressed stream is broken, and what can be read of it ends inside a record.
    BrokenStream,
    ZeroWidth,
    ZeroHeight,
    /// The right edge of an area is not a `u32`.
    XOverflow,
    /// The bottom edge of an area is not a `u32`.
    YOverflow,
    /// The run that starts at this position has no pixel.
    ZeroLength(u32),
    /// The run that starts at this position leaves the range of coordinates.
    PositionOverflow(u32),
}

/// Why masks could not be written.
#[derive(Debug, Clone, Copy, PartialEq, Eq, Structural)]
pub enum EncodeError {
    /// An area has this many runs, more than a record can hold.
    TooManyRuns(usize),
    /// Inside its bounds an area has a run whose position is not a `u32`.
    AreaTooLarge,
    /// The compressor failed.
    Compression,
}

/// Byte `i` of a number, the lowest first.
pub open spec fn number_byte(v: int, i: int) -> u8 {
    if i == 0 {
        (v % 256) as u8
    } else if i == 1 {
        (v / 256 % 256) as u8
    } else if i == 2 {
        (v / 65536 % 256) as u8
    } else {
        (v / 16777216 % 256) as u8
    }
}

pub open spec fn u16_at(b: Seq<u8>, p: int) -> int {
    b[p] + 256 * b[p + 1]
}

pub open spec fn u32_at(b: Seq<u8>, p: int) -> int {
    b[p] + 256 * b[p + 1] + 65536 * b[p + 2] + 16777216 * b[p + 3]
}

/// The bytes of the numbers, four each.
pub open spec fn words(s: Seq<u32>) -> Seq<u8> {
    Seq::new(4 * s.len(), |i: int| number_byte(s[i / 4] as int, i % 4))
}

/// The bytes of a 16-bit number.
pub open spec fn half_word(v: int) -> Seq<u8> {
    seq![number_byte(v, 0), number_byte(v, 1)]
}

/// What a reader has to know of a file to read its records.
pub struct Dialect {
    pub version: int,
    pub image_width: int,
    pub image_height: int,
}

impl Dialect {
    /// How many bytes the lengths of `count` runs take.
    pub open spec fn lens_size(self, count: int) -> int {
        if self.version == 1 {
            2 * count
        } else {
            4 * count
        }
    }

    /// How many bytes the bounds of an area take.
    pub open spec fn bounds_size(self) -> int {
        if self.version == 1 {
            0
        } else {
            16
        }
    }
}

/// The bounds of the record whose bounds start at `p`. In the first version they are the image.
pub open spec fn bounds_at(b: Seq<u8>, p: int, d: Dialect) -> Result<Roi, DecodeError> {
    if d.version == 1 {
        Ok(
            Roi {
                x_start: 0,
                x_end: d.image_width as u32,
                y_start: 0,
                y_end: d.image_height as u32,
            },
        )
    } else if p + 12 > b.len() {
        Err(DecodeError::TruncatedRecord)
    } else if u32_at(b, p + 8) == 0 {
        Err(DecodeError::ZeroWidth)
    } else if p + 16 > b.len() {
        Err(DecodeError::TruncatedRecord)
    } else if u32_at(b, p + 12) == 0 {
        Err(DecodeError::ZeroHeight)
    } else if u32_at(b, p) + u32_at(b, p + 8) > u32::MAX {
        Err(DecodeError::XOverflow)
    } else if u32_at(b, p + 4) + u32_at(b, p + 12) > u32::MAX {
        Err(DecodeError::YOverflow)
    } else {
        Ok(
            Roi {
                x_start: u32_at(b, p) as u32,
                x_end: (u32_at(b, p) + u32_at(b, p + 8)) as u32,
                y_start: u32_at(b, p + 4) as u32,
                y_end: (u32_at(b, p + 4) + u32_at(b, p + 12)) as u32,
            },
        )
    }
}

/// The run of `len` pixels from a position inside the bounds, counted row by row.
pub open spec fn run_at(start: int, len: int, bounds: Roi) -> Result<Span, DecodeError> {
    let width = bounds.x_end - bounds.x_start;
    let x = start % width + bounds.x_start;
    let y = start / width + bounds.y_start;
    if len == 0 {
        Err(DecodeError::ZeroLength(start as u32))
    } else if x + len > u32::MAX || y + 1 > u32::MAX {
        Err(DecodeError::PositionOverflow(start as u32))
    } else {
        Ok(Span { start: x as u32, end: (x + len) as u32, y: y as u32 })
    }
}

/// Run `k` of the `count` runs that start at `p`.
pub open spec fn nth_run(b: Seq<u8>, p: int, count: int, k: int, bounds: Roi, d: Dialect) -> Result<
    Span,
    DecodeError,
> {
    let len_at = p + 4 * count + d.lens_size(k);
    run_at(
        u32_at(b, p + 4 * k),
        if d.version == 1 {
            u16_at(b, len_at)
        } else {
            u32_at(b, len_at)
        },
        bounds,
    )
}

/// The first `n` of the `count` runs that start at `p`, or what is wrong with the first bad one.
pub open spec fn runs_at(
    b: Seq<u8>,
    p: int,
    count: int,
    n: int,
    bounds: Roi,
    d: Dialect,
) -> Result<Seq<Span>, DecodeError>
    decreases n,
{
    if n <= 0 {
        Ok(Seq::empty())
    } else {
        match runs_at(b, p, count, n - 1, bounds, d) {
            Err(e) => Err(e),
            Ok(earlier) => match nth_run(b, p, count, n - 1, bounds, d) {
                Err(e) => Err(e),
                Ok(run) => Ok(earlier.push(run)),
            },
        }
    }
}

/// The size of a record behind the number of its runs.
pub open spec fn record_size(count: int, d: Dialect) -> int {
    d.bounds_size() + 4 * count + d.lens_size(count)
}

/// The runs of the record that starts at `p`, behind the number of its runs.
pub open spec fn record_at(b: Seq<u8>, p: int, count: int, d: Dialect) -> Result<
    Seq<Span>,
    DecodeError,
> {
    match bounds_at(b, p, d) {
        Err(e) => Err(e),
        Ok(bounds) => if p + record_size(count, d) > b.len() {
            Err(DecodeError::TruncatedRecord)
        } else {
            runs_at(b, p + d.bounds_size(), count, count, bounds, d)
        },
    }
}

/// The areas of the records from `p` on, where `n` areas came before. An area gets the color of
/// its position. Records without a run are skipped, and a last odd byte is.
#[verifier::opaque]
pub open spec fn records_from(b: Seq<u8>, p: int, n: int, d: Dialect) -> Result<
    Seq<LayerModel>,
    DecodeError,
>
    decreases b.len() - p,
{
    if p < 0 || p + 2 > b.len() {
        Ok(Seq::empty())
    } else {
        let count = u16_at(b, p);
        if count == 0 {
            records_from(b, p + 2, n, d)
        } else {
            match record_at(b, p + 2, count, d) {
                Err(e) => Err(e),
                Ok(runs) => match records_from(b, p + 2 + record_size(count, d), n + 1, d) {
                    Err(e) => Err(e),
                    Ok(rest) => Ok(
                        seq![LayerModel { color: position_color(n), pixels: pixels(runs) }] + rest,
                    ),
                },
            }
        }
    }
}

pub(crate) fn read_u16(b: &[u8], p: usize) -> (v: u16)
    requires
        p + 2 <= b@.len(),
    ensures
        v == u16_at(b@, p as int),
{
    b[p] as u16 + 256 * b[p + 1] as u16
}

fn read_u32(b: &[u8], p: usize) -> (v: u32)
    requires
        p + 4 <= b@.len(),
    ensures
        v == u32_at(b@, p as int),
{
    b[p] as u32 + 256 * b[p + 1] as u32 + 65536 * b[p + 2] as u32 + 16777216 * b[p + 3] as u32
}

fn read_bounds(b: &[u8], p: usize, version: u16, image_width: u32, image_height: u32) -> (bounds:
    Result<Roi, DecodeError>)
    requires
        p <= b@.len(),
        image_width > 0,
        image_height > 0,
    ensures
        bounds == bounds_at(
            b@,
            p as int,
            (Dialect {
                version: version as int,
                image_width: image_width as int,
                image_height: image_height as int,
            }),
        ),
        bounds matches Ok(r) ==> r.wf(),
        bounds is Ok && version != 1 ==> p + 16 <= b@.len(),
{
    if version == 1 {
        return Ok(Roi { x_start: 0, x_end: image_width, y_start: 0, y_end: image_height });
    }
    let left: usize = b.len() - p;
    if left < 12 {
        return Err(DecodeError::TruncatedRecord);
    }
    let x: u32 = read_u32(b, p);
    let y: u32 = read_u32(b, p + 4);
    let width: u32 = read_u32(b, p + 8);
    if width == 0 {
        return Err(DecodeError::ZeroWidth);
    }
    if left < 16 {
        return Err(DecodeError::TruncatedRecord);
    }
    let height: u32 = read_u32(b, p + 12);
    if height == 0 {
        return Err(DecodeError::ZeroHeight);
    }
    if width > u32::MAX - x {
        return Err(DecodeError::XOverflow);
    }
    if height > u32::MAX - y {
        return Err(DecodeError::YOverflow);
    }
    Ok(Roi { x_start: x, x_end: x + width, y_start: y, y_end: y + height })
}

fn make_run(start: u32, len: u32, bounds: Roi) -> (run: Result<Span, DecodeError>)
    requires
        bounds.wf(),
    ensures
        run == run_at(start as int, len as int, bounds),
        run matches Ok(r) ==> r.wf(),
{
    if len == 0 {
        return Err(DecodeError::ZeroLength(start));
    }
    let width: u32 = bounds.x_end - bounds.x_start;
    let x: u32 = start % width + bounds.x_start;
    let rows: u32 = start / width;
    assert(0 <= start as int / width as int <= start) by (nonlinear_arith)
        requires
            start >= 0,
            width > 0,
    ;
    if len > u32::MAX - x || rows >= u32::MAX - bounds.y_start {
        return Err(DecodeError::PositionOverflow(start));
    }
    Ok(Span { start: x, end: x + len, y: rows + bounds.y_start })
}

fn read_runs(
    b: &[u8],
    p: usize,
    count: usize,
    bounds: Roi,
    version: u16,
    Ghost(d): Ghost<Dialect>,
) -> (runs: Result<Vec<Span>, DecodeError>)
    requires
        bounds.wf(),
        d.version == version,
        count <= u16::MAX,
        p + 4 * count + d.lens_size(count as int) <= b@.len(),
    ensures
        match runs {
            Ok(r) => runs_at(b@, p as int, count as int, count as int, bounds, d) == Ok::<
                Seq<Span>,
                DecodeError,
            >(r@) && forall|i: int| 0 <= i < r@.len() ==> (#[trigger] r@[i]).wf(),
            Err(e) => runs_at(b@, p as int, count as int, count as int, bounds, d) == Err::<
                Seq<Span>,
                DecodeError,
            >(e),
        },
        runs matches Ok(r) ==> r@.len() == count,
{
    let mut runs: Vec<Span> = Vec::new();
    let size: usize = b.len();
    let lens: usize = p + 4 * count;
    let mut k: usize = 0;
    while k < count
        invariant
            k <= count,
            count <= u16::MAX,
            bounds.wf(),
            d.version == version,
            lens == p + 4 * count,
            size == b@.len(),
            p + 4 * count + d.lens_size(count as int) <= b@.len(),
            runs@.len() == k,
            runs_at(b@, p as int, count as int, k as int, bounds, d) == Ok::<
                Seq<Span>,
                DecodeError,
            >(runs@),
            forall|i: int| 0 <= i < runs@.len() ==> (#[trigger] runs@[i]).wf(),
        decreases count - k,
    {
        let start: u32 = read_u32(b, p + 4 * k);
        let len: u32 = if version == 1 {
            read_u16(b, lens + 2 * k) as u32
        } else {
            read_u32(b, lens + 4 * k)
        };
        match make_run(start, len, bounds) {
            Ok(run) => {
                runs.push(run);
            },
            Err(e) => {
                proof {
                    lemma_bad_run(b@, p as int, count as int, k as int, count as int, bounds, d, e);
                }
                return Err(e);
            },
        }
        k += 1;
    }
    Ok(runs)
}

/// What is wrong with the first bad run is wrong with the record.
proof fn lemma_bad_run(
    b: Seq<u8>,
    p: int,
    count: int,
    k: int,
    n: int,
    bounds: Roi,
    d: Dialect,
    e: DecodeError,
)
    requires
        0 <= k < n,
        runs_at(b, p, count, k, bounds, d) is Ok,
        nth_run(b, p, count, k, bounds, d) == Err::<Span, DecodeError>(e),
    ensures
        runs_at(b, p, count, n, bounds, d) == Err::<Seq<Span>, DecodeError>(e),
    decreases n,
{
    if n > k + 1 {
        lemma_bad_run(b, p, count, k, n - 1, bounds, d, e);
    }
}

/// The areas `earlier` and then those of `later`, unless reading those failed.
pub open spec fn joined(earlier: Seq<LayerModel>, later: Result<Seq<LayerModel>, DecodeError>) -> Result<
    Seq<LayerModel>,
    DecodeError,
> {
    match later {
        Ok(areas) => Ok(earlier + areas),
        Err(e) => Err(e),
    }
}

/// What the read areas show, or what went wrong.
pub open spec fn read_models(areas: Result<Vec<PixelArea>, DecodeError>) -> Result<
    Seq<LayerModel>,
    DecodeError,
> {
    match areas {
        Ok(all) => Ok(area_models(all@)),
        Err(e) => Err(e),
    }
}

/// Reads a record behind the number of its runs. Gives its runs, and where it ends.
fn read_record(
    b: &[u8],
    p: usize,
    count: usize,
    version: u16,
    image_width: u32,
    image_height: u32,
) -> (record: Result<(Vec<Span>, usize), DecodeError>)
    requires
        p <= b@.len(),
        0 < count <= u16::MAX,
        image_width > 0,
        image_height > 0,
    ensures
        ({
            let d = Dialect {
                version: version as int,
                image_width: image_width as int,
                image_height: image_height as int,
            };
            match record {
                Ok((runs, next)) => {
                    &&& record_at(b@, p as int, count as int, d) == Ok::<Seq<Span>, DecodeError>(
                        runs@,
                    )
                    &&& next == p + record_size(count as int, d)
                    &&& next <= b@.len()
                    &&& runs@.len() == count
                    &&& forall|i: int| 0 <= i < runs@.len() ==> (#[trigger] runs@[i]).wf()
                },
                Err(e) => record_at(b@, p as int, count as int, d) == Err::<
                    Seq<Span>,
                    DecodeError,
                >(e),
            }
        }),
{
    let ghost d = Dialect {
        version: version as int,
        image_width: image_width as int,
        image_height: image_height as int,
    };
    let size: usize = b.len();
    let bounds: Roi = match read_bounds(b, p, version, image_width, image_height) {
        Ok(bounds) => bounds,
        Err(e) => {
            return Err(e);
        },
    };
    let body: usize = if version == 1 {
        p
    } else {
        p + 16
    };
    let body_size: usize = if version == 1 {
        6 * count
    } else {
        8 * count
    };
    if size - body < body_size {
        return Err(DecodeError::TruncatedRecord);
    }
    match read_runs(b, body, count, bounds, version, Ghost(d)) {
        Ok(runs) => Ok((runs, body + body_size)),
        Err(e) => Err(e),
    }
}

/// A record without runs is skipped, and a bad one ends the reading.
proof fn lemma_other_records(b: Seq<u8>, p: int, n: int, d: Dialect)
    requires
        0 <= p,
        p + 2 <= b.len(),
    ensures
        u16_at(b, p) == 0 ==> records_from(b, p, n, d) == records_from(b, p + 2, n, d),
        u16_at(b, p) != 0 ==> (record_at(b, p + 2, u16_at(b, p), d) matches Err(e) ==> records_from(
            b,
            p,
            n,
            d,
        ) == Err::<Seq<LayerModel>, DecodeError>(e)),
{
    reveal(records_from);
}

/// A good record gives an area, and the reading goes on behind it.
proof fn lemma_next_record(b: Seq<u8>, p: int, n: int, d: Dialect)
    requires
        0 <= p,
        p + 2 <= b.len(),
        u16_at(b, p) != 0,
        record_at(b, p + 2, u16_at(b, p), d) is Ok,
    ensures
        records_from(b, p, n, d) == joined(
            seq![
                LayerModel {
                    color: position_color(n),
                    pixels: pixels(record_at(b, p + 2, u16_at(b, p), d)->Ok_0),
                },
            ],
            records_from(b, p + 2 + record_size(u16_at(b, p), d), n + 1, d),
        ),
{
    reveal(records_from);
}

/// Reads the records of a file after decompression.
pub fn decode_records(b: &[u8], version: u16, image_width: u32, image_height: u32) -> (areas: Result<
    Vec<PixelArea>,
    DecodeError,
>)
    requires
        image_width > 0,
        image_height > 0,
    ensures
        read_models(areas) == records_from(
            b@,
            0,
            0,
            (Dialect {
                version: version as int,
                image_width: image_width as int,
                image_height: image_height as int,
            }),
        ),
{
    let ghost d = Dialect {
        version: version as int,
        image_width: image_width as int,
        image_height: image_height as int,
    };
    let ghost whole = records_from(b@, 0, 0, d);
    let size: usize = b.len();
    let mut all: Vec<PixelArea> = Vec::new();
    let mut p: usize = 0;
    assert(whole == joined(area_models(all@), whole)) by {
        if let Ok(areas) = whole {
            assert(area_models(all@) + areas =~= areas);
        }
    }
    while size - p >= 2
        invariant
            p <= size,
            size == b@.len(),
            image_width > 0,
            image_height > 0,
            d == (Dialect {
                version: version as int,
                image_width: image_width as int,
                image_height: image_height as int,
            }),
            whole == records_from(b@, 0, 0, d),
            whole == joined(
                area_models(all@),
                records_from(b@, p as int, all@.len() as int, d),
            ),
        decreases size - p,
    {
        let count: usize = read_u16(b, p) as usize;
        proof {
            lemma_other_records(b@, p as int, all@.len() as int, d);
        }
        if count == 0 {
            p += 2;
        } else {
            match read_record(b, p + 2, count, version, image_width, image_height) {
                Ok((runs, next)) => {
                    let color: [u8; 4] = color_at_position(all.len());
                    let ghost before = all@;
                    proof {
                        lemma_next_record(b@, p as int, before.len() as int, d);
                    }
                    if let Some(area) = PixelArea::new(runs.as_slice(), color) {
                        all.push(area);
                        proof {
                            let later = records_from(b@, next as int, before.len() as int + 1, d);
                            assert(area_models(all@) =~= area_models(before).push(area@));
                            if let Ok(areas) = later {
                                assert(area_models(before) + (seq![area@] + areas) =~= area_models(
                                    all@,
                                ) + areas);
                            }
                        }
                    }
                    p = next;
                },
                Err(e) => {
                    return Err(e);
                },
            }
        }
    }
    proof {
        reveal(records_from);
        assert(area_models(all@) + Seq::empty() =~= area_models(all@));
    }
    Ok(all)
}

/// The smallest bounds of a region.
pub open spec fn bounds_of(region: Set<(int, int)>) -> Roi {
    choose|bounds: Roi| bounds.hugs(region)
}

/// Where a run starts inside the bounds, counted row by row.
pub open spec fn inner_start(run: Span, bounds: Roi) -> int {
    (run.y - bounds.y_start) * (bounds.x_end - bounds.x_start) + (run.start - bounds.x_start)
}

/// Where a run ends inside the bounds, counted row by row.
pub open spec fn inner_end(run: Span, bounds: Roi) -> int {
    inner_start(run, bounds) + (run.end - run.start)
}

/// The numbers of a record behind the number of its runs.
pub open spec fn record_words(bounds: Roi, runs: Seq<Span>) -> Seq<u32> {
    seq![
        bounds.x_start,
        bounds.y_start,
        (bounds.x_end - bounds.x_start) as u32,
        (bounds.y_end - bounds.y_start) as u32,
    ] + runs.map_values(|r: Span| inner_start(r, bounds) as u32) + runs.map_values(
        |r: Span| (r.end - r.start) as u32,
    )
}

/// The record of an area, or why there is none.
#[verifier::opaque]
pub open spec fn record_of(region: Set<(int, int)>) -> Result<Seq<u8>, EncodeError> {
    let runs = runs_of(region);
    let bounds = bounds_of(region);
    if runs.len() > u16::MAX {
        Err(EncodeError::TooManyRuns(runs.len() as usize))
    } else if exists|k: int| 0 <= k < runs.len() && inner_end(#[trigger] runs[k], bounds) > u32::MAX {
        Err(EncodeError::AreaTooLarge)
    } else {
        Ok(half_word(runs.len() as int) + words(record_words(bounds, runs)))
    }
}

/// The records of the first `n` areas, or why the first bad one has none.
pub open spec fn records_of(areas: Seq<(int, LayerModel)>, n: int) -> Result<Seq<u8>, EncodeError>
    decreases n,
{
    if n <= 0 {
        Ok(Seq::empty())
    } else {
        match records_of(areas, n - 1) {
            Err(e) => Err(e),
            Ok(earlier) => match record_of(areas[n - 1].1.pixels) {
                Err(e) => Err(e),
                Ok(record) => Ok(earlier + record),
            },
        }
    }
}

/// The records of all filled layers of a stack.
pub open spec fn stack_records(stack: Seq<LayerModel>) -> Result<Seq<u8>, EncodeError> {
    let areas = filled_layers(stack, AffectedLayer::Unspecified);
    records_of(areas, areas.len() as int)
}

pub(crate) fn push_u16(out: &mut Vec<u8>, v: u16)
    ensures
        final(out)@ == old(out)@ + half_word(v as int),
{
    out.push((v % 256) as u8);
    out.push((v / 256) as u8);
    assert(out@ =~= old(out)@ + half_word(v as int));
}

fn push_u32(out: &mut Vec<u8>, v: u32, Ghost(start): Ghost<Seq<u8>>, Ghost(done): Ghost<Seq<u32>>)
    requires
        old(out)@ == start + words(done),
    ensures
        final(out)@ == start + words(done.push(v)),
{
    out.push((v % 256) as u8);
    out.push((v / 256 % 256) as u8);
    out.push((v / 65536 % 256) as u8);
    out.push((v / 16777216) as u8);
    proof {
        let all = words(done.push(v));
        let n = words(done).len();
        assert(all.len() == n + 4);
        assert forall|i: int| 0 <= i < n implies all[i] == words(done)[i] by {
            assert(done.push(v)[i / 4] == done[i / 4]);
        }
        assert forall|i: int| n <= i < n + 4 implies all[i] == number_byte(v as int, i - n) by {
            assert(i / 4 == done.len());
            assert(i % 4 == i - n);
        }
        assert(out@ =~= start + all);
    }
}

/// A run lies inside the bounds of its region.
proof fn lemma_run_inside(region: Set<(int, int)>, bounds: Roi, runs: Seq<Span>, k: int)
    requires
        bounds.hugs(region),
        canonical(runs),
        pixels(runs) == region,
        0 <= k < runs.len(),
    ensures
        runs[k].wf(),
        bounds.x_start <= runs[k].start,
        runs[k].end <= bounds.x_end,
        bounds.y_start <= runs[k].y < bounds.y_end,
        0 <= inner_start(runs[k], bounds) < inner_end(runs[k], bounds),
{
    let run = runs[k];
    assert(run.has(run.start as int, run.y as int));
    assert(run.has(run.end - 1, run.y as int));
    assert(crate::span::covers(runs, run.start as int, run.y as int));
    assert(crate::span::covers(runs, run.end - 1, run.y as int));
    assert(pixels(runs).contains((run.start as int, run.y as int)));
    assert(pixels(runs).contains((run.end - 1, run.y as int)));
    assert(bounds.area().contains((run.start as int, run.y as int)));
    assert(bounds.area().contains((run.end - 1, run.y as int)));
    assert((run.y - bounds.y_start) * (bounds.x_end - bounds.x_start) >= 0) by (nonlinear_arith)
        requires
            run.y >= bounds.y_start,
            bounds.x_end >= bounds.x_start,
    ;
}

proof fn lemma_inner_fits(run: Span, bounds: Roi)
    requires
        bounds.wf(),
        bounds.y_start <= run.y,
        bounds.x_start <= run.start < run.end,
    ensures
        (run.y - bounds.y_start) * (bounds.x_end - bounds.x_start) <= 0xFFFF_FFFF * 0xFFFF_FFFF,
        (run.y - bounds.y_start) * (bounds.x_end - bounds.x_start) >= 0,
{
    assert((run.y - bounds.y_start) * (bounds.x_end - bounds.x_start) <= 0xFFFF_FFFF * 0xFFFF_FFFF
        && (run.y - bounds.y_start) * (bounds.x_end - bounds.x_start) >= 0) by (nonlinear_arith)
        requires
            0 <= run.y - bounds.y_start <= 0xFFFF_FFFF,
            0 <= bounds.x_end - bounds.x_start <= 0xFFFF_FFFF,
    ;
}

/// Appends the record of an area.
fn encode_area(out: &mut Vec<u8>, ranges: &SortedRanges) -> (result: Result<(), EncodeError>)
    ensures
        match result {
            Ok(()) => record_of(ranges@) is Ok && final(out)@ == old(out)@ + record_of(ranges@)->Ok_0,
            Err(e) => record_of(ranges@) == Err::<Seq<u8>, EncodeError>(e),
        },
        is_region(ranges@),
{
    let runs = ranges.spans();
    let bounds = ranges.roi();
    proof {
        reveal(record_of);
        use_type_invariant(ranges);
        lemma_runs_of(*ranges);
        hugging_roi_is_unique(bounds, bounds_of(ranges@), ranges@);
    }
    let count: usize = runs.len();
    if count > u16::MAX as usize {
        return Err(EncodeError::TooManyRuns(count));
    }
    let ghost region = ranges@;
    let ghost prefix = out@ + half_word(count as int);
    push_u16(out, count as u16);
    let ghost mut done = Seq::<u32>::empty();
    proof {
        assert(words(done) =~= Seq::empty());
        assert(prefix + words(done) =~= prefix);
    }
    push_u32(out, bounds.x_start, Ghost(prefix), Ghost(done));
    proof {
        done = done.push(bounds.x_start);
    }
    push_u32(out, bounds.y_start, Ghost(prefix), Ghost(done));
    proof {
        done = done.push(bounds.y_start);
    }
    let width: u32 = bounds.width();
    push_u32(out, width, Ghost(prefix), Ghost(done));
    proof {
        done = done.push(width);
    }
    let height: u32 = bounds.height();
    push_u32(out, height, Ghost(prefix), Ghost(done));
    proof {
        done = done.push(height);
    }
    let ghost head = done;
    let ghost starts = runs@.map_values(|r: Span| inner_start(r, bounds) as u32);
    let ghost lens = runs@.map_values(|r: Span| (r.end - r.start) as u32);
    let mut k: usize = 0;
    assert(done =~= head + starts.take(0));
    while k < count
        invariant
            k <= count,
            count == runs@.len(),
            region == ranges@,
            canonical(runs@),
            pixels(runs@) == region,
            runs_of(region) == runs@,
            bounds_of(region) == bounds,
            bounds.hugs(region),
            bounds.wf(),
            runs@.len() <= u16::MAX,
            width == bounds.x_end - bounds.x_start,
            starts == runs@.map_values(|r: Span| inner_start(r, bounds) as u32),
            out@ == prefix + words(done),
            done == head + starts.take(k as int),
            forall|j: int| 0 <= j < k ==> inner_end(#[trigger] runs@[j], bounds) <= u32::MAX,
        decreases count - k,
    {
        let run: Span = runs[k];
        proof {
            lemma_run_inside(region, bounds, runs@, k as int);
            lemma_inner_fits(run, bounds);
        }
        let start: u64 = (run.y - bounds.y_start) as u64 * width as u64 + (run.start
            - bounds.x_start) as u64;
        if start + (run.end - run.start) as u64 > u32::MAX as u64 {
            proof {
                reveal(record_of);
                assert(inner_end(runs@[k as int], bounds) > u32::MAX);
            }
            return Err(EncodeError::AreaTooLarge);
        }
        push_u32(out, start as u32, Ghost(prefix), Ghost(done));
        proof {
            done = done.push(start as u32);
            assert(starts.take(k + 1) =~= starts.take(k as int).push(start as u32));
            assert(done =~= head + starts.take(k + 1));
        }
        k += 1;
    }
    assert(starts.take(k as int) =~= starts);
    let mut j: usize = 0;
    assert(done =~= head + starts + lens.take(0));
    while j < count
        invariant
            j <= count,
            count == runs@.len(),
            canonical(runs@),
            lens == runs@.map_values(|r: Span| (r.end - r.start) as u32),
            out@ == prefix + words(done),
            done == head + starts + lens.take(j as int),
        decreases count - j,
    {
        let run: Span = runs[j];
        assert(runs@[j as int].wf());
        let len: u32 = run.end - run.start;
        push_u32(out, len, Ghost(prefix), Ghost(done));
        proof {
            done = done.push(len);
            assert(lens.take(j + 1) =~= lens.take(j as int).push(len));
            assert(done =~= head + starts + lens.take(j + 1));
        }
        j += 1;
    }
    proof {
        assert(lens.take(j as int) =~= lens);
        assert(head =~= seq![bounds.x_start, bounds.y_start, width, height]);
        assert(done =~= record_words(bounds, runs@));
        let record = half_word(count as int) + words(done);
        assert(prefix + words(done) =~= old(out)@ + record);
    }
    Ok(())
}

/// The records of all filled layers, bottom first.
pub fn encode_records(masks: &PixelAreaStack) -> (records: Result<Vec<u8>, EncodeError>)
    ensures
        match records {
            Ok(r) => stack_records(masks@) == Ok::<Seq<u8>, EncodeError>(r@),
            Err(e) => stack_records(masks@) == Err::<Seq<u8>, EncodeError>(e),
        },
        records is Ok ==> forall|i: int|
            0 <= i < masks@.len() && is_filled(#[trigger] masks@[i]) ==> is_region(
                masks@[i].pixels,
            ),
{
    let entries = masks.iter().collect();
    let ghost areas = filled_layers(masks@, AffectedLayer::Unspecified);
    let mut out: Vec<u8> = Vec::new();
    let mut k: usize = 0;
    while k < entries.len()
        invariant
            k <= entries@.len(),
            entry_models(entries@) == areas,
            areas == filled_layers(masks@, AffectedLayer::Unspecified),
            records_of(areas, k as int) == Ok::<Seq<u8>, EncodeError>(out@),
            forall|j: int| 0 <= j < k ==> is_region((#[trigger] areas[j]).1.pixels),
        decreases entries@.len() - k,
    {
        assert(areas[k as int] == entry_model(entries@[k as int]));
        match encode_area(&mut out, &entries[k].1.pixels) {
            Ok(()) => {},
            Err(e) => {
                proof {
                    lemma_bad_area(areas, k as int, areas.len() as int, e);
                }
                return Err(e);
            },
        }
        k += 1;
    }
    proof {
        filled_entries(masks@, AffectedLayer::Unspecified, 0, masks@.len() as int);
        assert forall|i: int| 0 <= i < masks@.len() && is_filled(
            #[trigger] masks@[i],
        ) implies is_region(masks@[i].pixels) by {
            let j = areas.index_of((i, masks@[i]));
            assert(areas[j] == (i, masks@[i]));
        }
    }
    Ok(out)
}

/// Why the first bad area has no record is why there are no records.
proof fn lemma_bad_area(areas: Seq<(int, LayerModel)>, k: int, n: int, e: EncodeError)
    requires
        0 <= k < n,
        records_of(areas, k) is Ok,
        record_of(areas[k].1.pixels) == Err::<Seq<u8>, EncodeError>(e),
    ensures
        records_of(areas, n) == Err::<Seq<u8>, EncodeError>(e),
    decreases n,
{
    if n > k + 1 {
        lemma_bad_area(areas, k, n - 1, e);
    }
}

/// Whether a region can be held by runs and has bounds, as every non-empty area does.
pub open spec fn is_region(region: Set<(int, int)>) -> bool {
    &&& exists|runs: Seq<Span>| canonical(runs) && pixels(runs) == region
    &&& exists|bounds: Roi| bounds.hugs(region)
}

/// What a reader gets of the areas: their pixels in order, each in the color of its position.
pub open spec fn recolored(areas: Seq<(int, LayerModel)>, from: int) -> Seq<LayerModel> {
    Seq::new(
        (areas.len() - from) as nat,
        |k: int|
            LayerModel { color: position_color(from + k), pixels: areas[from + k].1.pixels },
    )
}

/// Whether the bytes `part` stand at `p`.
spec fn lies_at(b: Seq<u8>, p: int, part: Seq<u8>) -> bool {
    &&& 0 <= p
    &&& p + part.len() <= b.len()
    &&& b.subrange(p, p + part.len()) == part
}

proof fn lemma_lies_at(b: Seq<u8>, p: int, first: Seq<u8>, second: Seq<u8>)
    requires
        lies_at(b, p, first + second),
    ensures
        lies_at(b, p, first),
        lies_at(b, p + first.len(), second),
{
    let whole = b.subrange(p, p + (first + second).len());
    assert(b.subrange(p, p + first.len()) =~= whole.take(first.len() as int));
    assert((first + second).take(first.len() as int) =~= first);
    assert(b.subrange(p + first.len(), p + first.len() + second.len()) =~= whole.skip(
        first.len() as int,
    ));
    assert((first + second).skip(first.len() as int) =~= second);
}

proof fn lemma_read_word(b: Seq<u8>, p: int, s: Seq<u32>, k: int)
    requires
        0 <= k < s.len(),
        lies_at(b, p, words(s)),
    ensures
        u32_at(b, p + 4 * k) == s[k],
{
    let v = s[k] as int;
    let part = b.subrange(p, p + words(s).len());
    let at = 4 * k;
    assert(part[at] == b[p + at] && words(s)[at] == number_byte(v, 0)) by {
        assert(at / 4 == k && at % 4 == 0);
    }
    assert(part[at + 1] == b[p + at + 1] && words(s)[at + 1] == number_byte(v, 1)) by {
        assert((at + 1) / 4 == k && (at + 1) % 4 == 1);
    }
    assert(part[at + 2] == b[p + at + 2] && words(s)[at + 2] == number_byte(v, 2)) by {
        assert((at + 2) / 4 == k && (at + 2) % 4 == 2);
    }
    assert(part[at + 3] == b[p + at + 3] && words(s)[at + 3] == number_byte(v, 3)) by {
        assert((at + 3) / 4 == k && (at + 3) % 4 == 3);
    }
}

proof fn lemma_run_read(run: Span, bounds: Roi)
    requires
        run.wf(),
        bounds.x_start <= run.start,
        run.end <= bounds.x_end,
        bounds.y_start <= run.y,
    ensures
        run_at(inner_start(run, bounds), run.end - run.start, bounds) == Ok::<Span, DecodeError>(
            run,
        ),
{
    let width = bounds.x_end - bounds.x_start;
    let row = run.y - bounds.y_start;
    let column = run.start - bounds.x_start;
    assert((row * width + column) % width == column && (row * width + column) / width == row)
        by (nonlinear_arith)
        requires
            0 <= column < width,
            0 <= row,
    ;
}

/// Reading a record gives back the runs it was made of.
proof fn lemma_record_read(b: Seq<u8>, p: int, region: Set<(int, int)>, d: Dialect)
    requires
        d.version == VERSION,
        is_region(region),
        record_of(region) is Ok,
        lies_at(b, p, record_of(region)->Ok_0),
    ensures
        u16_at(b, p) == runs_of(region).len(),
        record_of(region)->Ok_0.len() == 2 + record_size(runs_of(region).len() as int, d),
        record_at(b, p + 2, runs_of(region).len() as int, d) == Ok::<Seq<Span>, DecodeError>(
            runs_of(region),
        ),
        pixels(runs_of(region)) == region,
        runs_of(region).len() > 0,
{
    reveal(record_of);
    let runs = runs_of(region);
    let bounds = bounds_of(region);
    let count = runs.len() as int;
    assert(canonical(runs) && pixels(runs) == region);
    assert(bounds.hugs(region));
    if count == 0 {
        crate::ranges::lemma_empty_runs(runs);
        assert(crate::ranges::touches_column(region, bounds.x_start as int));
    }
    let numbers = record_words(bounds, runs);
    lemma_lies_at(b, p, half_word(count), words(numbers));
    let q = p + 2;
    let head = b.subrange(p, p + 2);
    assert(head[0] == b[p] && head[1] == b[p + 1]);
    lemma_read_word(b, q, numbers, 0);
    lemma_read_word(b, q, numbers, 1);
    lemma_read_word(b, q, numbers, 2);
    lemma_read_word(b, q, numbers, 3);
    lemma_run_inside(region, bounds, runs, 0);
    assert(bounds_at(b, q, d) == Ok::<Roi, DecodeError>(bounds));
    assert forall|k: int| 0 <= k < count implies #[trigger] nth_run(b, q + 16, count, k, bounds, d)
        == Ok::<Span, DecodeError>(runs[k]) by {
        lemma_nth_read(b, q, k, region, d);
    }
    lemma_runs_collected(b, q + 16, count, runs, bounds, d);
    assert(runs.take(count) =~= runs);
}

proof fn lemma_nth_read(b: Seq<u8>, q: int, k: int, region: Set<(int, int)>, d: Dialect)
    requires
        d.version == VERSION,
        is_region(region),
        record_of(region) is Ok,
        0 <= k < runs_of(region).len(),
        lies_at(b, q, words(record_words(bounds_of(region), runs_of(region)))),
    ensures
        nth_run(b, q + 16, runs_of(region).len() as int, k, bounds_of(region), d) == Ok::<
            Span,
            DecodeError,
        >(runs_of(region)[k]),
{
    reveal(record_of);
    let runs = runs_of(region);
    let bounds = bounds_of(region);
    let count = runs.len() as int;
    let numbers = record_words(bounds, runs);
    assert(canonical(runs) && pixels(runs) == region);
    assert(bounds.hugs(region));
    lemma_run_inside(region, bounds, runs, k);
    let run = runs[k];
    assert(!(inner_end(run, bounds) > u32::MAX));
    lemma_read_word(b, q, numbers, 4 + k);
    lemma_read_word(b, q, numbers, 4 + count + k);
    assert(numbers[4 + k] == inner_start(run, bounds));
    assert(numbers[4 + count + k] == run.end - run.start);
    lemma_run_read(run, bounds);
}

proof fn lemma_runs_collected(
    b: Seq<u8>,
    p: int,
    n: int,
    runs: Seq<Span>,
    bounds: Roi,
    d: Dialect,
)
    requires
        0 <= n <= runs.len(),
        forall|k: int|
            0 <= k < n ==> #[trigger] nth_run(b, p, runs.len() as int, k, bounds, d) == Ok::<
                Span,
                DecodeError,
            >(runs[k]),
    ensures
        runs_at(b, p, runs.len() as int, n, bounds, d) == Ok::<Seq<Span>, DecodeError>(
            runs.take(n),
        ),
    decreases n,
{
    if n > 0 {
        lemma_runs_collected(b, p, n - 1, runs, bounds, d);
        assert(nth_run(b, p, runs.len() as int, n - 1, bounds, d) == Ok::<Span, DecodeError>(
            runs[n - 1],
        ));
        assert(runs.take(n) =~= runs.take(n - 1).push(runs[n - 1]));
    } else {
        assert(runs.take(0) =~= Seq::empty());
    }
}

/// The records of fewer areas start the records of more.
proof fn lemma_records_prefix(areas: Seq<(int, LayerModel)>, k: int, n: int)
    requires
        0 <= k <= n,
        records_of(areas, n) is Ok,
    ensures
        records_of(areas, k) is Ok,
        lies_at(records_of(areas, n)->Ok_0, 0, records_of(areas, k)->Ok_0),
    decreases n - k,
{
    let small = records_of(areas, k)->Ok_0;
    let large = records_of(areas, n)->Ok_0;
    if k < n {
        lemma_records_prefix(areas, k, n - 1);
        let middle = records_of(areas, n - 1)->Ok_0;
        assert(large.subrange(0, small.len() as int) =~= middle.subrange(0, small.len() as int));
    } else {
        assert(large.subrange(0, small.len() as int) =~= small);
    }
}

proof fn lemma_read_step(b: Seq<u8>, p: int, k: int, region: Set<(int, int)>, d: Dialect)
    requires
        d.version == VERSION,
        is_region(region),
        record_of(region) is Ok,
        lies_at(b, p, record_of(region)->Ok_0),
    ensures
        records_from(b, p, k, d) == joined(
            seq![LayerModel { color: position_color(k), pixels: region }],
            records_from(b, p + record_of(region)->Ok_0.len(), k + 1, d),
        ),
{
    lemma_record_read(b, p, region, d);
    lemma_next_record(b, p, k, d);
}

proof fn lemma_records_read(areas: Seq<(int, LayerModel)>, k: int, d: Dialect)
    requires
        d.version == VERSION,
        0 <= k <= areas.len(),
        forall|i: int| 0 <= i < areas.len() ==> is_region((#[trigger] areas[i]).1.pixels),
        records_of(areas, areas.len() as int) is Ok,
    ensures
        records_of(areas, k) is Ok,
        records_from(
            records_of(areas, areas.len() as int)->Ok_0,
            records_of(areas, k)->Ok_0.len() as int,
            k,
            d,
        ) == Ok::<Seq<LayerModel>, DecodeError>(recolored(areas, k)),
    decreases areas.len() - k,
{
    let n = areas.len() as int;
    let b = records_of(areas, n)->Ok_0;
    lemma_records_prefix(areas, k, n);
    let earlier = records_of(areas, k)->Ok_0;
    let p = earlier.len() as int;
    if k < n {
        lemma_records_prefix(areas, k + 1, n);
        lemma_records_read(areas, k + 1, d);
        let region = areas[k].1.pixels;
        let record = record_of(region)->Ok_0;
        assert(record_of(region) is Ok);
        assert(records_of(areas, k + 1)->Ok_0 == earlier + record);
        lemma_lies_at(b, 0, earlier, record);
        lemma_read_step(b, p, k, region, d);
        let rest = recolored(areas, k + 1);
        let area = LayerModel { color: position_color(k), pixels: region };
        assert(seq![area] + rest =~= recolored(areas, k));
    } else {
        reveal(records_from);
        assert(recolored(areas, k) =~= Seq::empty());
    }
}

/// Reading the records of a stack gives back the pixels of its filled layers, in order, each in the
/// color of its position. The size of the image does not matter.
pub proof fn read_gives_back_records(
    stack: Seq<LayerModel>,
    image_width: int,
    image_height: int,
)
    requires
        forall|i: int|
            0 <= i < stack.len() && is_filled(#[trigger] stack[i]) ==> is_region(stack[i].pixels),
        stack_records(stack) is Ok,
    ensures
        records_from(
            stack_records(stack)->Ok_0,
            0,
            0,
            (Dialect { version: VERSION as int, image_width, image_height }),
        ) == Ok::<Seq<LayerModel>, DecodeError>(
            recolored(filled_layers(stack, AffectedLayer::Unspecified), 0),
        ),
{
    let areas = filled_layers(stack, AffectedLayer::Unspecified);
    filled_entries(stack, AffectedLayer::Unspecified, 0, stack.len() as int);
    assert forall|i: int| 0 <= i < areas.len() implies is_region(
        (#[trigger] areas[i]).1.pixels,
    ) by {
        let (at, layer) = areas[i];
        assert(is_filled(stack[at]) && layer == stack[at]);
    }
    lemma_records_read(
        areas,
        0,
        Dialect { version: VERSION as int, image_width, image_height },
    );
    assert(records_of(areas, 0)->Ok_0.len() == 0);
}

/// A number of two or four bytes has its lowest byte first.
pub proof fn numbers_are_little_endian(b: Seq<u8>, p: int, v: u32, h: u16)
    ensures
        u16_at(b, p) == b[p] + 256 * b[p + 1],
        u32_at(b, p) == b[p] + 256 * b[p + 1] + 65536 * b[p + 2] + 16777216 * b[p + 3],
        number_byte(v as int, 0) + 256 * number_byte(v as int, 1) + 65536 * number_byte(v as int, 2)
            + 16777216 * number_byte(v as int, 3) == v,
        half_word(h as int).len() == 2,
        half_word(h as int)[0] + 256 * half_word(h as int)[1] == h,
{
}

/// What the record of an area is, byte by byte: the number of its runs; the left and top edge, the
/// width and the height of its bounds; where each run starts inside the bounds, counted row by row;
/// and how long each run is.
pub proof fn record_layout(
    region: Set<(int, int)>,
    record: Seq<u8>,
    runs: Seq<Span>,
    bounds: Roi,
    k: int,
)
    requires
        record_of(region) == Ok::<Seq<u8>, EncodeError>(record),
        canonical(runs),
        pixels(runs) == region,
        bounds.hugs(region),
        0 <= k < runs.len(),
    ensures
        ({
            let n = runs.len();
            &&& record.len() == 18 + 8 * n
            &&& record[0] + 256 * record[1] == n
            &&& u32_at(record, 2) == bounds.x_start
            &&& u32_at(record, 6) == bounds.y_start
            &&& u32_at(record, 10) == bounds.x_end - bounds.x_start
            &&& u32_at(record, 14) == bounds.y_end - bounds.y_start
            &&& u32_at(record, 18 + 4 * k) == (runs[k].y - bounds.y_start) * (bounds.x_end
                - bounds.x_start) + (runs[k].start - bounds.x_start)
            &&& u32_at(record, 18 + 4 * n + 4 * k) == runs[k].end - runs[k].start
        }),
{
    lemma_record_is(region, record, runs, bounds, k);
    lemma_record_words(record, runs, bounds, k);
}

proof fn lemma_record_is(
    region: Set<(int, int)>,
    record: Seq<u8>,
    runs: Seq<Span>,
    bounds: Roi,
    k: int,
)
    requires
        record_of(region) == Ok::<Seq<u8>, EncodeError>(record),
        canonical(runs),
        pixels(runs) == region,
        bounds.hugs(region),
        0 <= k < runs.len(),
    ensures
        record == half_word(runs.len() as int) + words(record_words(bounds, runs)),
        runs.len() <= u16::MAX,
        0 <= inner_start(runs[k], bounds) < inner_end(runs[k], bounds) <= u32::MAX,
        bounds.wf(),
{
    reveal(record_of);
    let own = runs_of(region);
    assert(canonical(own) && pixels(own) == region);
    crate::span::canonical_is_unique(own, runs);
    assert(bounds_of(region).hugs(region));
    hugging_roi_is_unique(bounds_of(region), bounds, region);
    lemma_run_inside(region, bounds, runs, k);
    assert(inner_end(runs[k], bounds) <= u32::MAX);
}

proof fn lemma_record_words(record: Seq<u8>, runs: Seq<Span>, bounds: Roi, k: int)
    requires
        record == half_word(runs.len() as int) + words(record_words(bounds, runs)),
        runs.len() <= u16::MAX,
        0 <= k < runs.len(),
        0 <= inner_start(runs[k], bounds) < inner_end(runs[k], bounds) <= u32::MAX,
        bounds.wf(),
    ensures
        ({
            let n = runs.len();
            &&& record.len() == 18 + 8 * n
            &&& record[0] + 256 * record[1] == n
            &&& u32_at(record, 2) == bounds.x_start
            &&& u32_at(record, 6) == bounds.y_start
            &&& u32_at(record, 10) == bounds.x_end - bounds.x_start
            &&& u32_at(record, 14) == bounds.y_end - bounds.y_start
            &&& u32_at(record, 18 + 4 * k) == inner_start(runs[k], bounds)
            &&& u32_at(record, 18 + 4 * n + 4 * k) == runs[k].end - runs[k].start
        }),
{
    let n = runs.len() as int;
    let w = record_words(bounds, runs);
    lemma_words_of_record(bounds, runs, k);
    lemma_word_behind(record, half_word(n), w, 0);
    lemma_word_behind(record, half_word(n), w, 1);
    lemma_word_behind(record, half_word(n), w, 2);
    lemma_word_behind(record, half_word(n), w, 3);
    lemma_word_behind(record, half_word(n), w, 4 + k);
    lemma_word_behind(record, half_word(n), w, 4 + n + k);
    assert(record[0] == half_word(n)[0] && record[1] == half_word(n)[1]);
}

proof fn lemma_words_of_record(bounds: Roi, runs: Seq<Span>, k: int)
    requires
        0 <= k < runs.len(),
        0 <= inner_start(runs[k], bounds) < inner_end(runs[k], bounds) <= u32::MAX,
        bounds.wf(),
    ensures
        ({
            let w = record_words(bounds, runs);
            &&& w.len() == 4 + 2 * runs.len()
            &&& w[0] == bounds.x_start && w[1] == bounds.y_start
            &&& w[2] == bounds.x_end - bounds.x_start && w[3] == bounds.y_end - bounds.y_start
            &&& w[4 + k] == inner_start(runs[k], bounds)
            &&& w[4 + runs.len() + k] == runs[k].end - runs[k].start
        }),
{
}

proof fn lemma_word_behind(record: Seq<u8>, head: Seq<u8>, w: Seq<u32>, i: int)
    requires
        record == head + words(w),
        head.len() == 2,
        0 <= i < w.len(),
    ensures
        record.len() == 2 + 4 * w.len(),
        record[0] == head[0],
        record[1] == head[1],
        u32_at(record, 2 + 4 * i) == w[i],
{
    assert(record.subrange(2, 2 + words(w).len() as int) =~= words(w));
    assert(lies_at(record, 2, words(w)));
    lemma_read_word(record, 2, w, i);
}

/// An area has no record where it has more runs than a record can count, and else where a run ends,
/// inside the bounds, at a place that is no `u32`.
pub proof fn records_that_cannot_be_written(region: Set<(int, int)>, runs: Seq<Span>, bounds: Roi)
    requires
        canonical(runs),
        pixels(runs) == region,
        bounds.hugs(region),
        runs.len() <= usize::MAX,
    ensures
        runs.len() > 0xFFFF ==> record_of(region) == Err::<Seq<u8>, EncodeError>(
            EncodeError::TooManyRuns(runs.len() as usize),
        ),
        runs.len() <= 0xFFFF ==> if exists|k: int|
            0 <= k < runs.len() && ((#[trigger] runs[k]).y - bounds.y_start) * (bounds.x_end
                - bounds.x_start) + (runs[k].end - bounds.x_start) > u32::MAX {
            record_of(region) == Err::<Seq<u8>, EncodeError>(EncodeError::AreaTooLarge)
        } else {
            record_of(region) is Ok
        },
{
    reveal(record_of);
    let own = runs_of(region);
    assert(canonical(own) && pixels(own) == region);
    crate::span::canonical_is_unique(own, runs);
    assert(bounds_of(region).hugs(region));
    hugging_roi_is_unique(bounds_of(region), bounds, region);
    assert forall|k: int| 0 <= k < runs.len() implies inner_end(#[trigger] runs[k], bounds) == (
    runs[k].y - bounds.y_start) * (bounds.x_end - bounds.x_start) + (runs[k].end
        - bounds.x_start) by {}
    if exists|k: int| 0 <= k < runs.len() && inner_end(#[trigger] runs[k], bounds) > u32::MAX {
        let k = choose|k: int|
            0 <= k < runs.len() && inner_end(#[trigger] runs[k], bounds) > u32::MAX;
        assert((runs[k].y - bounds.y_start) * (bounds.x_end - bounds.x_start) + (runs[k].end
            - bounds.x_start) > u32::MAX);
    }
}

/// Records are written one behind the other, bottom first, until one cannot be.
pub proof fn records_stand_in_a_row(areas: Seq<(int, LayerModel)>, n: int)
    requires
        0 <= n <= areas.len(),
    ensures
        records_of(areas, n) is Ok <==> forall|k: int|
            0 <= k < n ==> record_of((#[trigger] areas[k]).1.pixels) is Ok,
        n > 0 && records_of(areas, n) is Ok ==> records_of(areas, n)->Ok_0 == records_of(
            areas,
            n - 1,
        )->Ok_0 + record_of(areas[n - 1].1.pixels)->Ok_0,
        records_of(areas, 0) == Ok::<Seq<u8>, EncodeError>(Seq::empty()),
        records_of(areas, n) matches Err(e) ==> exists|k: int|
            0 <= k < n && record_of((#[trigger] areas[k]).1.pixels) == Err::<
                Seq<u8>,
                EncodeError,
            >(e) && records_of(areas, k) is Ok,
    decreases n,
{
    if n > 0 {
        records_stand_in_a_row(areas, n - 1);
        if records_of(areas, n) is Err && records_of(areas, n - 1) is Ok {
            assert(record_of(areas[n - 1].1.pixels) is Err);
        }
    }
}

/// What is read of written areas has their pixels, in order, and the colors of the positions.
pub proof fn read_areas_take_new_colors(areas: Seq<(int, LayerModel)>, k: int)
    ensures
        recolored(areas, 0).len() == areas.len(),
        0 <= k < areas.len() ==> recolored(areas, 0)[k].pixels == areas[k].1.pixels
            && recolored(areas, 0)[k].color == position_color(k),
{
}

/// A record holds as many runs as it counts. Run `k` has the position and the length that stand at
/// place `k`: its column and row are those of the position inside the bounds. In the first version
/// the bounds are the image and a length has two bytes.
pub proof fn records_are_read_run_by_run(
    b: Seq<u8>,
    p: int,
    count: int,
    d: Dialect,
    runs: Seq<Span>,
    k: int,
)
    requires
        0 <= p <= b.len(),
        0 <= k < count,
        0 < d.image_width <= u32::MAX,
        0 < d.image_height <= u32::MAX,
        record_at(b, p, count, d) == Ok::<Seq<Span>, DecodeError>(runs),
    ensures
        runs.len() == count,
        d.version == 1 ==> {
            let at = u32_at(b, p + 4 * k);
            let len = u16_at(b, p + 4 * count + 2 * k);
            &&& p + 6 * count <= b.len()
            &&& 0 < len
            &&& runs[k].start == at % d.image_width
            &&& runs[k].y == at / d.image_width
            &&& runs[k].end == runs[k].start + len
        },
        d.version != 1 ==> {
            let (left, top) = (u32_at(b, p), u32_at(b, p + 4));
            let (width, height) = (u32_at(b, p + 8), u32_at(b, p + 12));
            let at = u32_at(b, p + 16 + 4 * k);
            let len = u32_at(b, p + 16 + 4 * count + 4 * k);
            &&& p + 16 + 8 * count <= b.len()
            &&& 0 < width && left + width <= u32::MAX
            &&& 0 < height && top + height <= u32::MAX
            &&& 0 < len
            &&& runs[k].start == left + at % width
            &&& runs[k].y == top + at / width
            &&& runs[k].end == runs[k].start + len
        },
{
    let bounds = bounds_at(b, p, d)->Ok_0;
    lemma_runs_one_by_one(b, p + d.bounds_size(), count, count, bounds, d, k);
    let width = bounds.x_end - bounds.x_start;
    let at = u32_at(b, p + d.bounds_size() + 4 * k);
    assert(0 <= at % width < width && 0 <= at / width) by (nonlinear_arith)
        requires
            0 <= at,
            0 < width,
    ;
}

proof fn lemma_runs_one_by_one(
    b: Seq<u8>,
    p: int,
    count: int,
    n: int,
    bounds: Roi,
    d: Dialect,
    k: int,
)
    requires
        0 <= k < n,
        runs_at(b, p, count, n, bounds, d) is Ok,
    ensures
        runs_at(b, p, count, n, bounds, d)->Ok_0.len() == n,
        nth_run(b, p, count, k, bounds, d) == Ok::<Span, DecodeError>(
            runs_at(b, p, count, n, bounds, d)->Ok_0[k],
        ),
    decreases n,
{
    if n > 1 {
        if k < n - 1 {
            lemma_runs_one_by_one(b, p, count, n - 1, bounds, d, k);
        } else {
            lemma_runs_one_by_one(b, p, count, n - 1, bounds, d, k - 1);
        }
    } else {
        assert(runs_at(b, p, count, 0, bounds, d) == Ok::<Seq<Span>, DecodeError>(Seq::empty()));
    }
}

proof fn lemma_first_bad_run(
    b: Seq<u8>,
    p: int,
    count: int,
    n: int,
    bounds: Roi,
    d: Dialect,
    e: DecodeError,
) -> (k: int)
    requires
        0 <= n,
        runs_at(b, p, count, n, bounds, d) == Err::<Seq<Span>, DecodeError>(e),
    ensures
        0 <= k < n,
        nth_run(b, p, count, k, bounds, d) == Err::<Span, DecodeError>(e),
        runs_at(b, p, count, k, bounds, d) is Ok,
    decreases n,
{
    match runs_at(b, p, count, n - 1, bounds, d) {
        Err(_) => lemma_first_bad_run(b, p, count, n - 1, bounds, d, e),
        Ok(_) => n - 1,
    }
}

/// What is wrong with a record that cannot be read, in the order in which it is looked for: the data
/// ends before its width does, the width is nothing, the data ends before its height does, the height
/// is nothing, the right or the bottom edge of the bounds is no `u32`, the data ends inside its runs,
/// or one of its runs, the first of those, has no pixel or leaves the range of coordinates.
pub proof fn records_that_cannot_be_read(
    b: Seq<u8>,
    p: int,
    count: int,
    d: Dialect,
    e: DecodeError,
)
    requires
        0 <= p <= b.len(),
        0 < count,
        0 < d.image_width <= u32::MAX,
        0 < d.image_height <= u32::MAX,
        record_at(b, p, count, d) == Err::<Seq<Span>, DecodeError>(e),
    ensures
        d.version == 1 ==> (e is TruncatedRecord <==> p + 6 * count > b.len()),
        d.version == 1 ==> !(e is ZeroWidth || e is ZeroHeight || e is XOverflow || e is YOverflow),
        d.version != 1 ==> {
            let (left, top) = (u32_at(b, p), u32_at(b, p + 4));
            let (width, height) = (u32_at(b, p + 8), u32_at(b, p + 12));
            if p + 12 > b.len() {
                e is TruncatedRecord
            } else if width == 0 {
                e is ZeroWidth
            } else if p + 16 > b.len() {
                e is TruncatedRecord
            } else if height == 0 {
                e is ZeroHeight
            } else if left + width > u32::MAX {
                e is XOverflow
            } else if top + height > u32::MAX {
                e is YOverflow
            } else {
                e is TruncatedRecord <==> p + 16 + 8 * count > b.len()
            }
        },
        e is TruncatedRecord || e is ZeroWidth || e is ZeroHeight || e is XOverflow
            || e is YOverflow || e is ZeroLength || e is PositionOverflow,
        e matches DecodeError::ZeroLength(at) ==> exists|k: int|
            0 <= k < count && #[trigger] position_and_length(b, p, count, k, d) == (at as int, 0int),
        e matches DecodeError::PositionOverflow(at) ==> exists|k: int|
            0 <= k < count && (#[trigger] position_and_length(b, p, count, k, d)).0 == at
                && position_and_length(b, p, count, k, d).1 > 0,
{
    if let Ok(bounds) = bounds_at(b, p, d) {
        let q = p + d.bounds_size();
        if p + record_size(count, d) <= b.len() {
            let k = lemma_first_bad_run(b, q, count, count, bounds, d, e);
            let (at, len) = position_and_length(b, p, count, k, d);
            assert(nth_run(b, q, count, k, bounds, d) == run_at(at, len, bounds));
            assert(0 <= at <= u32::MAX);
        }
    }
}

/// Where run `k` of a record starts inside the bounds, and how long it is.
pub open spec fn position_and_length(b: Seq<u8>, p: int, count: int, k: int, d: Dialect) -> (
    int,
    int,
) {
    if d.version == 1 {
        (u32_at(b, p + 4 * k), u16_at(b, p + 4 * count + 2 * k))
    } else {
        (u32_at(b, p + 16 + 4 * k), u32_at(b, p + 16 + 4 * count + 4 * k))
    }
}

/// Records are read one behind the other. A record that counts no run is no area; any other is the
/// next area, in the color of its position, or the end of reading where it cannot be read. What is
/// too short to count runs is left over.
pub proof fn records_are_read_in_turn(b: Seq<u8>, p: int, n: int, d: Dialect)
    requires
        0 <= p,
    ensures
        p + 2 > b.len() ==> records_from(b, p, n, d) == Ok::<Seq<LayerModel>, DecodeError>(
            Seq::empty(),
        ),
        p + 2 <= b.len() ==> {
            let count = b[p] + 256 * b[p + 1];
            let size = if d.version == 1 {
                6 * count
            } else {
                16 + 8 * count
            };
            &&& count == 0 ==> records_from(b, p, n, d) == records_from(b, p + 2, n, d)
            &&& count > 0 && record_at(b, p + 2, count, d) is Err ==> (records_from(
                b,
                p,
                n,
                d,
            ) matches Err(e) && record_at(b, p + 2, count, d) == Err::<Seq<Span>, DecodeError>(e))
            &&& count > 0 && record_at(b, p + 2, count, d) is Ok ==> (match records_from(
                b,
                p + 2 + size,
                n + 1,
                d,
            ) {
                Err(e) => records_from(b, p, n, d) == Err::<Seq<LayerModel>, DecodeError>(e),
                Ok(rest) => {
                    &&& records_from(b, p, n, d) matches Ok(all)
                    &&& all.len() == rest.len() + 1
                    &&& all[0].color == position_color(n)
                    &&& all[0].pixels == pixels(record_at(b, p + 2, count, d)->Ok_0)
                    &&& all.skip(1) == rest
                },
            })
        },
{
    reveal(records_from);
    if p + 2 <= b.len() {
        let count = u16_at(b, p);
        if count > 0 && record_at(b, p + 2, count, d) is Ok {
            if let Ok(rest) = records_from(b, p + 2 + record_size(count, d), n + 1, d) {
                assert(records_from(b, p, n, d)->Ok_0.skip(1) =~= rest);
            }
        }
    }
}

/// Reading records never finds the stream broken: that is told by who reads the stream.
pub(crate) proof fn lemma_records_not_broken(b: Seq<u8>, p: int, n: int, d: Dialect)
    ensures
        records_from(b, p, n, d) != Err::<Seq<LayerModel>, DecodeError>(DecodeError::BrokenStream),
    decreases b.len() - p,
{
    reveal(records_from);
    if p >= 0 && p + 2 <= b.len() {
        let count = u16_at(b, p);
        if count == 0 {
            lemma_records_not_broken(b, p + 2, n, d);
        } else {
            if p + 2 + record_size(count, d) <= b.len() {
                lemma_records_not_broken(b, p + 2 + record_size(count, d), n + 1, d);
            }
            if let Err(e) = record_at(b, p + 2, count, d) {
                if let Ok(bounds) = bounds_at(b, p + 2, d) {
                    if p + 2 + record_size(count, d) <= b.len() {
                        let k = lemma_first_bad_run(
                            b,
                            p + 2 + d.bounds_size(),
                            count,
                            count,
                            bounds,
                            d,
                            e,
                        );
                    }
                }
            }
        }
    }
}

} // verus!
