//! The file format of masks.
//!
//! A file starts with a preamble and a version. The rest is the compressed records of the layers.
use crate::affected_layer::AffectedLayer;
use crate::layer_stack::{filled_layers, is_filled, PixelAreaStack};
use crate::mask_records::{
    VERSION, decode_records, encode_records, half_word, number_byte, push_u16,
    read_gives_back_records, read_models, read_u16, recolored, records_from, stack_records, u16_at,
    DecodeError, Dialect, EncodeError,
};
use crate::pixel_area::{LayerModel, PixelArea};
use vstd::prelude::*;

verus! {

/// The buffer that the compressor and the decompressor work with.
pub const BUFFER_SIZE: usize = 4096;

/// How hard the compressor tries.
pub const QUALITY: u32 = 11;

/// The base-two logarithm of the window in which the compressor looks for repetitions.
pub const WINDOW_BITS: u32 = 22;

/// What comes of reading a compressed stream byte by byte to its end: `None` stands for an error.
pub uninterp spec fn decompressed(data: Seq<u8>, buffer_size: usize) -> Seq<Option<u8>>;

/// `brotli::Decompressor`, read byte by byte to the end; a read that fails gives `None`. What comes
/// of it depends on the data and the size of its input buffer alone.
#[verifier::external_body]
fn decompress(data: &[u8], buffer_size: usize) -> (read: Vec<Option<u8>>)
    requires
        buffer_size > 0,
    ensures
        read@ == decompressed(data@, buffer_size),
{
    let stream = brotli::Decompressor::new(data, buffer_size);
    std::io::Read::bytes(stream).map(|byte| byte.ok()).collect()
}

/// The data as it comes from a stream without errors.
pub open spec fn read_well(data: Seq<u8>) -> Seq<Option<u8>> {
    data.map_values(|b: u8| Some(b))
}

/// Whether reading met an error.
pub open spec fn is_broken(read: Seq<Option<u8>>) -> bool {
    exists|i: int| 0 <= i < read.len() && #[trigger] read[i] is None
}

/// The bytes before the first error among the first `n` reads.
pub open spec fn readable(read: Seq<Option<u8>>, n: int) -> Seq<u8>
    decreases n,
{
    if n <= 0 {
        Seq::empty()
    } else if is_broken(read.take(n)) {
        readable(read, n - 1)
    } else {
        readable(read, n - 1).push(read[n - 1]->0)
    }
}

/// The areas in what was read of a stream. A record that does not end says whether the stream was
/// broken or just ended.
pub open spec fn stream_areas(read: Seq<Option<u8>>, d: Dialect) -> Result<
    Seq<LayerModel>,
    DecodeError,
> {
    match records_from(readable(read, read.len() as int), 0, 0, d) {
        Err(DecodeError::TruncatedRecord) if is_broken(read) => Err(DecodeError::BrokenStream),
        areas => areas,
    }
}

/// `brotli::CompressorWriter`, with all the data written, flushed and finished. It always makes a
/// stream: the vector takes all bytes, and the encoder refuses neither data before its last block
/// nor a flush. The data can be read from the stream. Which bytes make it up is not said: the
/// encoder weighs its choices in floating point, whose last bits differ between machines.
#[verifier::external_body]
fn compress(data: &[u8], buffer_size: usize, quality: u32, window_bits: u32) -> (stream: Option<
    Vec<u8>,
>)
    requires
        buffer_size > 0,
        quality <= 11,
        10 <= window_bits <= 24,
    ensures
        stream matches Some(s) && forall|size: usize|
            size > 0 ==> #[trigger] decompressed(s@, size) == read_well(data@),
{
    let mut writer = brotli::CompressorWriter::new(Vec::new(), buffer_size, quality, window_bits);
    std::io::Write::write_all(&mut writer, data).ok()?;
    std::io::Write::flush(&mut writer).ok()?;
    Some(writer.into_inner())
}

/// The start of a file of this version.
pub open spec fn file_header(preamble: Seq<u8>, version: u16) -> Seq<u8> {
    preamble + half_word(version as int)
}

/// What the file holds behind its header, or what is wrong with the header.
pub open spec fn file_body(preamble: Seq<u8>, file: Seq<u8>) -> Result<(u16, Seq<u8>), DecodeError> {
    let n = preamble.len() as int;
    if file.len() < n {
        Err(DecodeError::TruncatedHeader)
    } else if file.take(n) != preamble {
        Err(DecodeError::InvalidPreamble)
    } else if file.len() < n + 2 {
        Err(DecodeError::TruncatedHeader)
    } else if u16_at(file, n) != 1 && u16_at(file, n) != 2 {
        Err(DecodeError::UnsupportedVersion(u16_at(file, n) as u16))
    } else {
        Ok((u16_at(file, n) as u16, file.skip(n + 2)))
    }
}

/// The areas of a mask file for an image of this size.
pub open spec fn file_areas(
    preamble: Seq<u8>,
    file: Seq<u8>,
    image_width: int,
    image_height: int,
) -> Result<Seq<LayerModel>, DecodeError> {
    match file_body(preamble, file) {
        Err(e) => Err(e),
        Ok((version, stream)) => stream_areas(
            decompressed(stream, BUFFER_SIZE),
            Dialect { version: version as int, image_width, image_height },
        ),
    }
}

/// Reads the header of a mask file. Gives the version, and where the compressed part starts.
pub fn decode_header(preamble: &[u8], file: &[u8]) -> (header: Result<(u16, usize), DecodeError>)
    ensures
        match header {
            Ok((version, start)) => start <= file@.len() && file_body(preamble@, file@) == Ok::<
                (u16, Seq<u8>),
                DecodeError,
            >((version, file@.skip(start as int))) && start == preamble@.len() + 2,
            Err(e) => file_body(preamble@, file@) == Err::<(u16, Seq<u8>), DecodeError>(e),
        },
{
    let n: usize = preamble.len();
    if file.len() < n {
        return Err(DecodeError::TruncatedHeader);
    }
    let mut i: usize = 0;
    while i < n
        invariant
            i <= n,
            n == preamble@.len(),
            n <= file@.len(),
            forall|k: int| 0 <= k < i ==> #[trigger] file@[k] == preamble@[k],
        decreases n - i,
    {
        if file[i] != preamble[i] {
            assert(file@.take(n as int)[i as int] != preamble@[i as int]);
            return Err(DecodeError::InvalidPreamble);
        }
        i += 1;
    }
    assert(file@.take(n as int) =~= preamble@);
    if file.len() - n < 2 {
        return Err(DecodeError::TruncatedHeader);
    }
    let version: u16 = read_u16(file, n);
    if version != 1 && version != 2 {
        return Err(DecodeError::UnsupportedVersion(version));
    }
    Ok((version, n + 2))
}

/// Reads the records in what was read of a stream, up to the first error.
pub fn decode_stream(
    read: &Vec<Option<u8>>,
    version: u16,
    image_width: u32,
    image_height: u32,
) -> (areas: Result<Vec<PixelArea>, DecodeError>)
    requires
        image_width > 0,
        image_height > 0,
    ensures
        read_models(areas) == stream_areas(
            read@,
            (Dialect {
                version: version as int,
                image_width: image_width as int,
                image_height: image_height as int,
            }),
        ),
{
    let mut bytes: Vec<u8> = Vec::new();
    let mut broken = false;
    let mut i: usize = 0;
    while i < read.len()
        invariant
            i <= read@.len(),
            bytes@ == readable(read@, i as int),
            broken == is_broken(read@.take(i as int)),
        decreases read@.len() - i,
    {
        let ghost before = read@.take(i as int);
        let ghost upto = read@.take(i + 1);
        proof {
            assert(upto =~= before.push(read@[i as int]));
            assert(upto[i as int] == read@[i as int]);
            if broken {
                let k = choose|k: int| 0 <= k < before.len() && #[trigger] before[k] is None;
                assert(upto[k] is None);
            } else {
                assert forall|k: int| 0 <= k < before.len() implies #[trigger] upto[k] is Some by {
                    assert(before[k] is Some);
                }
            }
        }
        match read[i] {
            Some(byte) => {
                if !broken {
                    bytes.push(byte);
                }
            },
            None => {
                broken = true;
            },
        }
        i += 1;
    }
    assert(read@.take(i as int) =~= read@);
    match decode_records(bytes.as_slice(), version, image_width, image_height) {
        Err(DecodeError::TruncatedRecord) if broken => Err(DecodeError::BrokenStream),
        areas => areas,
    }
}

/// What comes without errors is readable, whole.
proof fn lemma_read_well(data: Seq<u8>, n: int)
    requires
        0 <= n <= data.len(),
    ensures
        !is_broken(read_well(data)),
        readable(read_well(data), n) == data.take(n),
    decreases n,
{
    let read = read_well(data);
    if n > 0 {
        lemma_read_well(data, n - 1);
        assert forall|k: int| 0 <= k < n implies #[trigger] read.take(n)[k] is Some by {}
        assert(data.take(n) =~= data.take(n - 1).push(data[n - 1]));
    } else {
        assert(data.take(0) =~= Seq::empty());
    }
}

/// Reads a mask file for an image of this size.
pub fn decode_masks(preamble: &[u8], file: &[u8], image_width: u32, image_height: u32) -> (areas:
    Result<Vec<PixelArea>, DecodeError>)
    requires
        image_width > 0,
        image_height > 0,
    ensures
        read_models(areas) == file_areas(
            preamble@,
            file@,
            image_width as int,
            image_height as int,
        ),
{
    match decode_header(preamble, file) {
        Err(e) => Err(e),
        Ok((version, start)) => {
            let stream = vstd::slice::slice_subrange(file, start, file.len());
            assert(stream@ =~= file@.skip(start as int));
            let read = decompress(stream, BUFFER_SIZE);
            decode_stream(&read, version, image_width, image_height)
        },
    }
}

/// Puts the header of the current version in front of a compressed stream, where there is one.
pub fn frame_stream(preamble: &[u8], stream: Option<Vec<u8>>) -> (file: Result<
    Vec<u8>,
    EncodeError,
>)
    ensures
        match stream {
            Some(s) => {
                &&& file matches Ok(f)
                &&& f@ == file_header(preamble@, VERSION) + s@
                &&& file_body(preamble@, f@) == Ok::<(u16, Seq<u8>), DecodeError>((VERSION, s@))
            },
            None => file == Err::<Vec<u8>, EncodeError>(EncodeError::Compression),
        },
{
    let stream = match stream {
        Some(stream) => stream,
        None => {
            return Err(EncodeError::Compression);
        },
    };
    let mut file: Vec<u8> = Vec::new();
    file.extend_from_slice(preamble);
    push_u16(&mut file, VERSION);
    file.extend_from_slice(stream.as_slice());
    proof {
        let n = preamble@.len() as int;
        assert(file@ =~= file_header(preamble@, VERSION) + stream@);
        assert(file@.take(n) =~= preamble@);
        assert(file@.skip(n + 2) =~= stream@);
        assert(file@[n] == number_byte(VERSION as int, 0));
        assert(file@[n + 1] == number_byte(VERSION as int, 1));
    }
    Ok(file)
}

/// The mask file for a stack of layers; `None` where no layer holds a pixel, and there is to be no
/// file. Reading the file for any image gives back the pixels of the filled layers, in order, each
/// in the color of its position.
pub fn encode_masks(preamble: &[u8], masks: &PixelAreaStack) -> (file: Result<
    Option<Vec<u8>>,
    EncodeError,
>)
    ensures
        file matches Ok(None) <==> forall|i: int|
            0 <= i < masks@.len() ==> !is_filled(#[trigger] masks@[i]),
        file matches Ok(Some(f)) ==> {
            &&& stack_records(masks@) is Ok
            &&& f@.len() >= preamble@.len() + 2
            &&& f@.take(preamble@.len() as int + 2) == file_header(preamble@, VERSION)
            &&& decompressed(f@.skip(preamble@.len() as int + 2), BUFFER_SIZE) == read_well(
                stack_records(masks@)->Ok_0,
            )
            &&& forall|image_width: int, image_height: int| #[trigger]
                file_areas(preamble@, f@, image_width, image_height) == Ok::<
                    Seq<LayerModel>,
                    DecodeError,
                >(recolored(filled_layers(masks@, AffectedLayer::Unspecified), 0))
        },
        file matches Ok(Some(_)) <==> stack_records(masks@) is Ok && exists|i: int|
            0 <= i < masks@.len() && is_filled(#[trigger] masks@[i]),
        file matches Err(e) ==> stack_records(masks@) == Err::<Seq<u8>, EncodeError>(e),
        stack_records(masks@) matches Err(e) ==> file == Err::<Option<Vec<u8>>, EncodeError>(e),
{
    if masks.is_empty() {
        proof {
            lemma_no_records(masks@, masks@.len() as int);
        }
        return Ok(None);
    }
    let records = match encode_records(masks) {
        Ok(records) => records,
        Err(e) => {
            return Err(e);
        },
    };
    let stream = compress(records.as_slice(), BUFFER_SIZE, QUALITY, WINDOW_BITS);
    match frame_stream(preamble, stream) {
        Err(e) => Err(e),
        Ok(file) => {
            proof {
                let start = preamble@.len() as int + 2;
                assert(file@.take(start) =~= file_header(preamble@, VERSION));
                assert(file@.skip(start) =~= stream->0@);
                assert forall|image_width: int, image_height: int| #[trigger]
                    file_areas(preamble@, file@, image_width, image_height) == Ok::<
                        Seq<LayerModel>,
                        DecodeError,
                    >(recolored(filled_layers(masks@, AffectedLayer::Unspecified), 0)) by {
                    read_gives_back_records(masks@, image_width, image_height);
                    lemma_read_well(records@, records@.len() as int);
                    assert(records@.take(records@.len() as int) =~= records@);
                    assert(read_well(records@).len() == records@.len());
                }
            }
            Ok(Some(file))
        },
    }
}

/// Without a filled layer there is nothing to write.
proof fn lemma_no_records(stack: Seq<LayerModel>, n: int)
    requires
        0 <= n <= stack.len(),
        forall|i: int| 0 <= i < stack.len() ==> !is_filled(#[trigger] stack[i]),
    ensures
        crate::layer_stack::filled_between(stack, AffectedLayer::Unspecified, 0, n).len() == 0,
    decreases n,
{
    if n > 0 {
        lemma_no_records(stack, n - 1);
    }
}

/// What is readable are the bytes up to the first read that failed.
pub proof fn readable_ends_at_the_first_error(read: Seq<Option<u8>>, n: int, i: int)
    requires
        0 <= n <= read.len(),
    ensures
        readable(read, n).len() <= n,
        0 <= i < readable(read, n).len() ==> read[i] == Some(readable(read, n)[i]),
        readable(read, n).len() < n ==> read[readable(read, n).len() as int] is None,
    decreases n,
{
    if n > 0 {
        readable_ends_at_the_first_error(read, n - 1, i);
        let upto = read.take(n);
        let earlier = readable(read, n - 1);
        if is_broken(upto) {
            let k = choose|k: int| 0 <= k < upto.len() && #[trigger] upto[k] is None;
            if earlier.len() == n - 1 {
                if k < n - 1 {
                    readable_ends_at_the_first_error(read, n - 1, k);
                }
                assert(read[n - 1] is None);
            }
        } else {
            assert(upto[n - 1] is Some);
            if earlier.len() < n - 1 {
                assert(upto[earlier.len() as int] is None);
            }
        }
    }
}

/// A stream without errors gives the areas in its bytes, or what is wrong with them. One with an
/// error gives the areas before it, and is called broken where the error is inside a record.
pub proof fn broken_streams_are_told(read: Seq<Option<u8>>, d: Dialect, bytes: Seq<u8>)
    requires
        bytes == readable(read, read.len() as int),
    ensures
        (forall|i: int| 0 <= i < read.len() ==> #[trigger] read[i] is Some) ==> stream_areas(read, d)
            == records_from(bytes, 0, 0, d),
        stream_areas(read, d) == Err::<Seq<LayerModel>, DecodeError>(DecodeError::BrokenStream)
            <==> (exists|i: int| 0 <= i < read.len() && #[trigger] read[i] is None)
            && records_from(bytes, 0, 0, d) == Err::<Seq<LayerModel>, DecodeError>(
            DecodeError::TruncatedRecord,
        ),
        stream_areas(read, d) != Err::<Seq<LayerModel>, DecodeError>(DecodeError::BrokenStream)
            ==> stream_areas(read, d) == records_from(bytes, 0, 0, d),
{
    crate::mask_records::lemma_records_not_broken(bytes, 0, 0, d);
}

/// A file that starts with the preamble and a version of two bytes, the lower first, is read from
/// behind them where the version is the first or the second; any other version is refused by its
/// number.
pub proof fn headers_are_read(preamble: Seq<u8>, low: u8, high: u8, stream: Seq<u8>)
    ensures
        ({
            let body = file_body(preamble, preamble + seq![low, high] + stream);
            let version = low + 256 * high;
            &&& version == 1 || version == 2 ==> body == Ok::<(u16, Seq<u8>), DecodeError>(
                (version as u16, stream),
            )
            &&& version != 1 && version != 2 ==> body == Err::<(u16, Seq<u8>), DecodeError>(
                DecodeError::UnsupportedVersion(version as u16),
            )
        }),
{
    let file = preamble + seq![low, high] + stream;
    let n = preamble.len() as int;
    assert(file.take(n) =~= preamble);
    assert(file.skip(n + 2) =~= stream);
    assert(file[n] == low && file[n + 1] == high);
}

/// A file that is too short for a header, and one with another preamble, are refused for that.
pub proof fn bad_headers_are_refused(preamble: Seq<u8>, file: Seq<u8>, i: int)
    ensures
        file.len() < preamble.len() ==> file_body(preamble, file) == Err::<
            (u16, Seq<u8>),
            DecodeError,
        >(DecodeError::TruncatedHeader),
        0 <= i < preamble.len() <= file.len() && file[i] != preamble[i] ==> file_body(preamble, file)
            == Err::<(u16, Seq<u8>), DecodeError>(DecodeError::InvalidPreamble),
        preamble.len() <= file.len() < preamble.len() + 2 && (forall|j: int|
            0 <= j < preamble.len() ==> #[trigger] file[j] == preamble[j]) ==> file_body(
            preamble,
            file,
        ) == Err::<(u16, Seq<u8>), DecodeError>(DecodeError::TruncatedHeader),
{
    let n = preamble.len() as int;
    if n <= file.len() {
        if 0 <= i < n && file[i] != preamble[i] {
            assert(file.take(n)[i] != preamble[i]);
        }
        if forall|j: int| 0 <= j < preamble.len() ==> #[trigger] file[j] == preamble[j] {
            assert(file.take(n) =~= preamble);
        }
    }
}

} // verus!
