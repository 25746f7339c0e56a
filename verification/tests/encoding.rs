use std::io::{Cursor, Read, Write};
use timelapse::source::SourceFile;
use timelapse::codec::{compress, decompress, COMPRESSION_LEVEL};
use timelapse::encoder::{
    append_frame, encode_stream, name_le, plan_batches, raw_batch, sorted_order, BATCH_SIZE,
};
use timelapse::error::Error;
use timelapse::layout::{FRAME_HEIGHT, FRAME_SIZE, FRAME_WIDTH};
use timelapse::playback::Model;

fn png(width: u32, height: u32, data: Vec<u8>) -> Vec<u8> {
    let buffer = image::RgbaImage::from_raw(width, height, data).unwrap();
    let mut bytes = Vec::new();
    buffer
        .write_to(&mut Cursor::new(&mut bytes), image::ImageOutputFormat::Png)
        .unwrap();
    bytes
}

fn canvas(seed: u8) -> Vec<u8> {
    let mut data = vec![seed; FRAME_SIZE];
    for i in 0..1000usize {
        data[i * 4001 % FRAME_SIZE] = (i as u8).wrapping_mul(seed);
    }
    data
}

fn canvas_file(name: &str, seed: u8) -> SourceFile {
    SourceFile {
        name: name.to_string(),
        contents: png(FRAME_WIDTH as u32, FRAME_HEIGHT as u32, canvas(seed)),
    }
}

fn small_file(name: &str, pixel: [u8; 4]) -> SourceFile {
    SourceFile { name: name.to_string(), contents: png(1, 1, pixel.to_vec()) }
}

fn names(list: &[&str]) -> Vec<String> {
    list.iter().map(|name| name.to_string()).collect()
}

#[test]
fn lexical_order_goes_byte_by_byte() {
    assert!(name_le("", ""));
    assert!(name_le("", "a"));
    assert!(!name_le("a", ""));
    assert!(name_le("a", "a"));
    assert!(name_le("a", "ab"));
    assert!(!name_le("ab", "a"));
    assert!(name_le("10.png", "9.png"));
    assert!(!name_le("9.png", "10.png"));
    assert!(name_le("Z", "a"));
    assert!(name_le("a-b", "a/b"));
    assert!(name_le("z", "é"));
    assert!(name_le("é", "\u{10000}"));
}

#[test]
fn lexical_order_agrees_with_string_order() {
    let samples = ["", "0", "00", "1", "10", "9", "a", "A", "ab", "b", "é", "e", "frames/1.png"];
    for a in samples {
        for b in samples {
            assert_eq!(name_le(a, b), a <= b);
        }
    }
}

#[test]
fn order_is_lexical_not_numeric() {
    let list = names(&["9.png", "10.png", "100.png", "1.png"]);
    assert_eq!(sorted_order(&list), vec![3, 1, 2, 0]);
    let padded = names(&["0009.png", "0010.png", "0100.png", "0001.png"]);
    assert_eq!(sorted_order(&padded), vec![3, 0, 1, 2]);
}

#[test]
fn order_keeps_equal_names_in_place() {
    let list = names(&["b", "a", "b", "a", "c", "a"]);
    assert_eq!(sorted_order(&list), vec![1, 3, 5, 0, 2, 4]);
    assert_eq!(sorted_order(&Vec::new()), Vec::<usize>::new());
    assert_eq!(sorted_order(&names(&["only"])), vec![0]);
}

#[test]
fn order_agrees_with_the_standard_sort() {
    let list = names(&[
        "frames/1648817000.png", "frames/999.png", "a", "frames/", "", "frames/1648817000.jpg",
        "b", "B", "frames/1648816999.png", "a",
    ]);
    let mut expected: Vec<usize> = (0..list.len()).collect();
    expected.sort_by(|p, q| list[*p].cmp(&list[*q]));
    assert_eq!(sorted_order(&list), expected);
}

#[test]
fn batches_hold_at_most_five_hundred() {
    assert_eq!(BATCH_SIZE, 500);
    assert_eq!(plan_batches(0), Vec::<(usize, usize)>::new());
    assert_eq!(plan_batches(1), vec![(0, 1)]);
    assert_eq!(plan_batches(499), vec![(0, 499)]);
    assert_eq!(plan_batches(500), vec![(0, 500)]);
    assert_eq!(plan_batches(501), vec![(0, 500), (500, 501)]);
    assert_eq!(plan_batches(1200), vec![(0, 500), (500, 1000), (1000, 1200)]);
}

#[test]
fn compressor_output_decompresses_to_the_input() {
    let data: Vec<u8> = (0..100_000u32).map(|i| (i % 251) as u8).collect();
    let blob = compress(&data).unwrap();
    assert_ne!(blob, data);
    assert_eq!(&blob[..2], &[0x1f, 0x8b]);
    assert!(blob.len() < data.len());
    let mut back = Vec::new();
    flate2::read::GzDecoder::new(&blob[..]).read_to_end(&mut back).unwrap();
    assert_eq!(back, data);
    assert_eq!(decompress(&blob), Ok(data));
    assert_eq!(decompress(&compress(&[]).unwrap()), Ok(Vec::new()));
}

#[test]
fn decompressor_rejects_what_is_no_gzip_stream() {
    let blob = compress(b"some bytes, long enough to be worth a checksum").unwrap();
    assert_eq!(decompress(b"hello"), Err(Error::Decompression));
    assert_eq!(decompress(&[]), Err(Error::Decompression));
    assert_eq!(decompress(&blob[..blob.len() - 1]), Err(Error::Decompression));
    assert_eq!(decompress(&blob[..10]), Err(Error::Decompression));
    let mut flipped = blob.clone();
    let last = flipped.len() - 5;
    flipped[last] ^= 0xff;
    assert_eq!(decompress(&flipped), Err(Error::Decompression));
}

#[test]
fn decompressor_reads_the_first_member_only() {
    let mut blob = compress(b"first").unwrap();
    blob.extend_from_slice(&compress(b"second").unwrap());
    assert_eq!(decompress(&blob), Ok(b"first".to_vec()));
}

#[test]
fn frame_contributes_its_raw_pixels() {
    let mut stream = vec![0xaa];
    append_frame(&mut stream, &small_file("a.png", [1, 2, 3, 4]));
    assert_eq!(stream, vec![0xaa, 1, 2, 3, 4]);
    append_frame(&mut stream, &SourceFile { name: "b.png".to_string(), contents: vec![0; 9] });
    assert_eq!(stream, vec![0xaa, 1, 2, 3, 4]);
    append_frame(&mut stream, &small_file("c.png", [5, 6, 7, 8]));
    assert_eq!(stream, vec![0xaa, 1, 2, 3, 4, 5, 6, 7, 8]);
}

#[test]
fn batch_is_laid_out_in_the_given_order() {
    let files = vec![
        small_file("z.png", [1, 1, 1, 1]),
        small_file("a.png", [2, 2, 2, 2]),
        SourceFile { name: "m.png".to_string(), contents: Vec::new() },
        SourceFile {
            name: "rows.png".to_string(),
            contents: png(2, 2, vec![1, 2, 3, 4, 5, 6, 7, 8, 9, 10, 11, 12, 13, 14, 15, 16]),
        },
    ];
    assert_eq!(
        raw_batch(&files),
        vec![1, 1, 1, 1, 2, 2, 2, 2, 1, 2, 3, 4, 5, 6, 7, 8, 9, 10, 11, 12, 13, 14, 15, 16]
    );
    assert_eq!(raw_batch(&Vec::new()), Vec::<u8>::new());
}

#[test]
fn stream_takes_frames_in_order_of_their_names() {
    let files = vec![
        small_file("9.png", [9, 9, 9, 9]),
        small_file("10.png", [10, 10, 10, 10]),
        small_file("1.png", [1, 1, 1, 1]),
    ];
    let blob = encode_stream(&files).unwrap();
    assert_eq!(decompress(&blob), Ok(vec![1, 1, 1, 1, 10, 10, 10, 10, 9, 9, 9, 9]));
}

#[test]
fn undecodable_frame_is_dropped_and_later_frames_move_up() {
    let files = vec![
        small_file("1.png", [1, 1, 1, 1]),
        SourceFile { name: "2.png".to_string(), contents: b"broken".to_vec() },
        small_file("3.txt", [7, 7, 7, 7]),
        small_file("4.png", [4, 4, 4, 4]),
    ];
    let blob = encode_stream(&files).unwrap();
    assert_eq!(decompress(&blob), Ok(vec![1, 1, 1, 1, 4, 4, 4, 4]));
    assert_eq!(decompress(&encode_stream(&Vec::new()).unwrap()), Ok(Vec::new()));
}

#[test]
fn encoded_canvases_come_back_as_frames_in_sorted_order() {
    let files = vec![
        canvas_file("0000000003.png", 30),
        canvas_file("0000000001.png", 10),
        canvas_file("0000000002.png", 20),
    ];
    let blob = encode_stream(&files).unwrap();
    let mut model = Model::new();
    assert_eq!(model.load(&blob), Ok(()));
    assert_eq!(model.frame_count(), 3);
    assert_eq!(model.current_index(), Some(0));
    assert_eq!(model.frame(0).unwrap().as_bytes(), &canvas(10)[..]);
    assert_eq!(model.frame(1).unwrap().as_bytes(), &canvas(20)[..]);
    assert_eq!(model.frame(2).unwrap().as_bytes(), &canvas(30)[..]);
}

#[test]
fn player_shows_a_canvas_mirrored_along_its_diagonal() {
    let mut data = vec![0u8; FRAME_SIZE];
    let column = 5;
    let row = 3;
    let at = (row * FRAME_WIDTH + column) * 4;
    data[at..at + 4].copy_from_slice(&[10, 20, 30, 40]);
    let files = vec![SourceFile {
        name: "only.png".to_string(),
        contents: png(FRAME_WIDTH as u32, FRAME_HEIGHT as u32, data),
    }];
    let mut model = Model::new();
    assert_eq!(model.load(&encode_stream(&files).unwrap()), Ok(()));
    assert_eq!(model.frame(0).unwrap().get_pixel(row, column), (10, 20, 30, 40));
    assert_eq!(model.frame(0).unwrap().get_pixel(column, row), (0, 0, 0, 0));
}

#[test]
fn compressor_gives_the_same_stream_for_the_same_bytes() {
    let data: Vec<u8> = (0..50_000u32).map(|i| (i * 7 % 253) as u8).collect();
    let first = compress(&data).unwrap();
    let second = compress(&data).unwrap();
    assert_eq!(first, second);
    assert_ne!(compress(&data[1..]).unwrap(), first);
    assert_eq!(COMPRESSION_LEVEL, 9);
    assert_eq!(&first[..4], &[0x1f, 0x8b, 8, 0]);
    assert_eq!(&first[4..8], &[0, 0, 0, 0]);
    assert_eq!(first[8], 2);
    assert_eq!(first[9], 255);
}

#[test]
fn compressor_agrees_with_the_gzip_writer_at_the_best_level() {
    let data: Vec<u8> = (0..20_000u32).map(|i| (i % 97) as u8).collect();
    let mut writer = flate2::write::GzEncoder::new(Vec::new(), flate2::Compression::best());
    writer.write_all(&data).unwrap();
    assert_eq!(compress(&data).unwrap(), writer.finish().unwrap());
}

#[test]
fn stream_is_the_compressed_raw_bytes_in_name_order() {
    let files = vec![
        small_file("b.png", [2, 2, 2, 2]),
        SourceFile { name: "c.png".to_string(), contents: Vec::new() },
        small_file("a.png", [1, 1, 1, 1]),
    ];
    let blob = encode_stream(&files).unwrap();
    assert_eq!(blob, compress(&[1, 1, 1, 1, 2, 2, 2, 2]).unwrap());
    let swapped = vec![
        small_file("a.png", [1, 1, 1, 1]),
        small_file("b.png", [2, 2, 2, 2]),
    ];
    assert_eq!(encode_stream(&swapped).unwrap(), blob);
}
