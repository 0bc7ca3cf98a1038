use imanot::mask_file::{
    decode_header, decode_masks, decode_stream, encode_masks, frame_stream,
};
use imanot::mask_records::{decode_records, encode_records, DecodeError, EncodeError};
use imanot::storage::{mask_names_differ, ImageListTaskItem, Kind, MaskPathError};
use imanot::{random_color_from_seed, FileStorage, PixelArea, PixelAreaStack, SortedRanges, Span};

const PREAMBLE: [u8; 4] = *b"mask";

fn area(spans: &[Span]) -> PixelArea {
    PixelArea::new(spans, [1, 2, 3, 4]).unwrap()
}

fn words(numbers: &[u32]) -> Vec<u8> {
    numbers.iter().flat_map(|n| n.to_le_bytes()).collect()
}

fn record(count: u16, numbers: &[u32]) -> Vec<u8> {
    let mut out = count.to_le_bytes().to_vec();
    out.extend(words(numbers));
    out
}

#[test]
fn records_hold_bounds_starts_and_lengths() {
    let stack = PixelAreaStack::from_iter(vec![(
        2,
        area(&[Span::new(5..7, 10), Span::new(9..10, 10), Span::new(6..8, 12)]),
    )]);
    let expected = record(3, &[5, 10, 5, 3, 0, 4, 11, 2, 1, 2]);
    assert_eq!(encode_records(&stack), Ok(expected));
}

#[test]
fn records_are_read_back() {
    let first = area(&[Span::new(5..7, 10), Span::new(9..10, 10), Span::new(6..8, 12)]);
    let second = area(&[Span::new(0..1, 0)]);
    let stack = PixelAreaStack::from_iter(vec![(2, first.clone()), (5, second.clone())]);
    let records = encode_records(&stack).unwrap();
    let read = decode_records(&records, 2, 1, 1).unwrap();
    assert_eq!(read.len(), 2);
    assert_eq!(read[0].pixels, first.pixels);
    assert_eq!(read[0].color, random_color_from_seed(0));
    assert_eq!(read[1].pixels, second.pixels);
    assert_eq!(read[1].color, random_color_from_seed(1));
}

#[test]
fn files_are_read_back() {
    let spans: Vec<Span> = (0..300).map(|y| Span::new(y..2 * y + 1, y)).collect();
    let stack = PixelAreaStack::from(vec![area(&spans), area(&[Span::new(7..9, 3)])]);
    let file = encode_masks(&PREAMBLE, &stack).unwrap().unwrap();
    assert_eq!(&file[..6], &[b'm', b'a', b's', b'k', 2, 0]);
    // Compressed, the records are shorter, and not the records themselves.
    let records = encode_records(&stack).unwrap();
    assert!(file.len() < records.len());
    assert_eq!(decode_header(&PREAMBLE, &file), Ok((2, 6)));
    let read = decode_masks(&PREAMBLE, &file, 600, 300).unwrap();
    let pixels: Vec<_> = read.iter().map(|a| a.pixels.clone()).collect();
    assert_eq!(
        pixels,
        vec![area(&spans).pixels, SortedRanges::from_span(Span::new(7..9, 3))]
    );
}

#[test]
fn no_pixels_no_file() {
    let mut stack = PixelAreaStack::default();
    assert_eq!(encode_masks(&PREAMBLE, &stack), Ok(None));
    stack.set_layer_color(3, [0; 4]);
    assert_eq!(encode_masks(&PREAMBLE, &stack), Ok(None));
    assert_eq!(encode_records(&stack), Ok(vec![]));
}

#[test]
fn first_version_counts_in_the_image() {
    let mut records = 2u16.to_le_bytes().to_vec();
    records.extend(words(&[3, 25]));
    records.extend(2u16.to_le_bytes());
    records.extend(4u16.to_le_bytes());
    let read = decode_records(&records, 1, 10, 10).unwrap();
    assert_eq!(read.len(), 1);
    assert_eq!(read[0].pixels.spans(), &[Span::new(3..5, 0), Span::new(5..9, 2)]);
}

#[test]
fn empty_records_and_odd_bytes_are_skipped() {
    let mut records = record(0, &[]);
    records.extend(record(1, &[0, 0, 4, 4, 5, 2]));
    records.push(9);
    let read = decode_records(&records, 2, 10, 10).unwrap();
    assert_eq!(read.len(), 1);
    assert_eq!(read[0].pixels.spans(), &[Span::new(1..3, 1)]);
}

#[test]
fn broken_headers() {
    let file = frame_stream(&PREAMBLE, Some(vec![])).unwrap();
    assert_eq!(file, vec![b'm', b'a', b's', b'k', 2, 0]);
    assert_eq!(frame_stream(&PREAMBLE, Some(vec![7])).unwrap().last(), Some(&7));
    assert_eq!(frame_stream(&PREAMBLE, None), Err(EncodeError::Compression));
    let read = |file: &[u8]| decode_masks(&PREAMBLE, file, 10, 10).err();
    assert_eq!(read(&file[..3]), Some(DecodeError::TruncatedHeader));
    assert_eq!(read(&file[..5]), Some(DecodeError::TruncatedHeader));
    assert_eq!(read(b"mesk\x02\x00"), Some(DecodeError::InvalidPreamble));
    assert_eq!(read(b"mask\x03\x01"), Some(DecodeError::UnsupportedVersion(259)));
    assert_eq!(read(b"mask\x00\x00"), Some(DecodeError::UnsupportedVersion(0)));
    // Without a readable stream there is no record, and no error.
    assert_eq!(decode_masks(&PREAMBLE, b"mask\x02\x00\xff\xff\xff", 10, 10), Ok(vec![]));
    assert_eq!(decode_masks(&PREAMBLE, b"mask\x01\x00", 10, 10), Ok(vec![]));
}

#[test]
fn broken_records() {
    let read = |records: &[u8]| decode_records(records, 2, 10, 10).err();
    let good = record(1, &[0, 0, 4, 4, 5, 2]);
    assert_eq!(read(&good), None);
    for len in 3..good.len() {
        assert_eq!(read(&good[..len]), Some(DecodeError::TruncatedRecord));
    }
    assert_eq!(read(&record(1, &[0, 0, 0])), Some(DecodeError::ZeroWidth));
    assert_eq!(read(&record(1, &[0, 0, 1, 0])), Some(DecodeError::ZeroHeight));
    assert_eq!(read(&record(1, &[2, 0, u32::MAX - 1, 1])), Some(DecodeError::XOverflow));
    assert_eq!(read(&record(1, &[0, 2, 1, u32::MAX - 1])), Some(DecodeError::YOverflow));
    assert_eq!(
        read(&record(2, &[0, 0, 4, 4, 1, 5, 1, 0])),
        Some(DecodeError::ZeroLength(5))
    );
    assert_eq!(
        read(&record(1, &[0, 0, 4, 4, 3, u32::MAX - 1])),
        Some(DecodeError::PositionOverflow(3))
    );
    assert_eq!(
        read(&record(1, &[0, u32::MAX - 1, 1, 1, 1, 1])),
        Some(DecodeError::PositionOverflow(1))
    );
}

#[test]
fn areas_that_no_record_holds() {
    let spans: Vec<Span> = (0..=u16::MAX as u32).map(|i| Span::new(2 * i..2 * i + 1, 0)).collect();
    let stack = PixelAreaStack::from(vec![area(&spans)]);
    assert_eq!(encode_masks(&PREAMBLE, &stack), Err(EncodeError::TooManyRuns(65536)));
    let stack = PixelAreaStack::from(vec![area(&[
        Span::new(0..1, 0),
        Span::new(999_999..1_000_000, 5_000),
    ])]);
    assert_eq!(encode_masks(&PREAMBLE, &stack), Err(EncodeError::AreaTooLarge));
}

fn file(name: &str, kind: Kind, id: &str) -> (String, Kind, String) {
    (name.to_string(), kind, id.to_string())
}

fn item(name: &str, id: &str, has_masks: bool) -> ImageListTaskItem {
    ImageListTaskItem { id: id.to_string(), name: name.to_string(), has_masks }
}

#[test]
fn images_are_listed_by_name() {
    let files = vec![
        file("c", Kind::Image, "c.png"),
        file("b", Kind::Mask, "b.masks"),
        file("a", Kind::Image, "a.png"),
        file("c", Kind::Image, "c.jpg"),
        file("a", Kind::Mask, "a.masks"),
        file("Z", Kind::Image, "Z.png"),
        file("aa", Kind::Image, "aa.png"),
        file("c", Kind::Mask, "x/c.masks"),
        file("é", Kind::Image, "é.png"),
    ];
    assert!(mask_names_differ(&files));
    assert_eq!(
        FileStorage::list_images_blocking(files),
        vec![
            item("Z", "Z.png", false),
            item("a", "a.png", true),
            item("aa", "aa.png", false),
            item("c", "c.jpg", true),
            item("é", "é.png", false),
        ]
    );
    assert_eq!(FileStorage::list_images_blocking(vec![]), vec![]);
}

#[test]
fn masks_with_one_name_are_found() {
    assert!(!mask_names_differ(&vec![
        file("a", Kind::Mask, "x/a.masks"),
        file("b", Kind::Image, "b.png"),
        file("a", Kind::Mask, "y/a.masks"),
    ]));
    assert!(mask_names_differ(&vec![
        file("a", Kind::Mask, "a.masks"),
        file("a", Kind::Image, "a.png"),
        file("a", Kind::Image, "a.jpg"),
    ]));
}

#[test]
fn paths_of_images_and_masks() {
    let storage = FileStorage::new("images".to_string());
    assert_eq!(storage.get_image_path(), "images");
    let some = |s: &str| Some(s.to_string());
    assert_eq!(
        FileStorage::get_mask_path(some("cat"), some("images")),
        Ok(("images".to_string(), "cat.masks".to_string()))
    );
    assert_eq!(
        FileStorage::get_mask_path(None, some("images")),
        Err(MaskPathError::NoFilename)
    );
    assert_eq!(
        FileStorage::get_mask_path(some("cat"), None),
        Err(MaskPathError::RootDirectory)
    );
}

#[test]
fn broken_streams() {
    let good = record(1, &[0, 0, 4, 4, 5, 2]);
    let mut read: Vec<Option<u8>> = good.iter().copied().map(Some).collect();
    assert_eq!(decode_stream(&read, 2, 10, 10).map(|a| a.len()), Ok(1));
    // An error between records ends the reading.
    read.push(None);
    read.extend(good.iter().copied().map(Some));
    assert_eq!(decode_stream(&read, 2, 10, 10).map(|a| a.len()), Ok(1));
    // Inside a record it is not the same as the end.
    assert_eq!(decode_stream(&read[..9].to_vec(), 2, 10, 10), Err(DecodeError::TruncatedRecord));
    read[9] = None;
    assert_eq!(decode_stream(&read, 2, 10, 10), Err(DecodeError::BrokenStream));
    read[0] = None;
    assert_eq!(decode_stream(&read, 2, 10, 10), Ok(vec![]));
}

#[test]
fn files_that_were_cut() {
    let spans: Vec<Span> =
        (0..3000u32).map(|y| Span::new(y * 7919 % 4000..y * 7919 % 4000 + 1 + y * 31 % 97, y)).collect();
    let stack = PixelAreaStack::from(vec![area(&spans)]);
    let file = encode_masks(&PREAMBLE, &stack).unwrap().unwrap();
    assert_eq!(
        decode_masks(&PREAMBLE, &file[..file.len() / 2], 5000, 3000),
        Err(DecodeError::BrokenStream)
    );
}
