use parking_lot::Mutex;
use rayon::iter::{IntoParallelRefIterator, ParallelIterator};
use std::io::Cursor;
use timelapse::assembler::{blank_frame, composite, Quadrants, TileStore};
use timelapse::source::SourceFile;
use timelapse::bitmap::Bitmap;
use timelapse::codec::decode_image;
use timelapse::error::Error;
use timelapse::layout::{FRAME_HEIGHT, FRAME_SIZE, FRAME_WIDTH, TILE_SIZE};
use timelapse::tile::TileKey;

fn solid(width: usize, height: usize, pixel: [u8; 4]) -> Bitmap {
    let mut data = Vec::with_capacity(width * height * 4);
    for _ in 0..width * height {
        data.extend_from_slice(&pixel);
    }
    Bitmap::from_raw(width, height, data).unwrap()
}

fn gradient(width: usize, height: usize, seed: u8) -> Bitmap {
    let mut data = Vec::with_capacity(width * height * 4);
    for y in 0..height {
        for x in 0..width {
            data.extend_from_slice(&[x as u8, y as u8, seed, 255]);
        }
    }
    Bitmap::from_raw(width, height, data).unwrap()
}

fn png(image: &Bitmap) -> Vec<u8> {
    let buffer =
        image::RgbaImage::from_raw(image.width as u32, image.height as u32, image.data.clone())
            .unwrap();
    let mut bytes = Vec::new();
    buffer
        .write_to(&mut Cursor::new(&mut bytes), image::ImageOutputFormat::Png)
        .unwrap();
    bytes
}

fn tile_file(name: &str, image: &Bitmap) -> SourceFile {
    SourceFile { name: name.to_string(), contents: png(image) }
}

#[test]
fn blank_image_is_transparent_black() {
    let image = Bitmap::blank(3, 2).unwrap();
    assert_eq!(image.width, 3);
    assert_eq!(image.height, 2);
    assert_eq!(image.data, vec![0u8; 24]);
    let empty = Bitmap::blank(0, 5).unwrap();
    assert_eq!(empty.data.len(), 0);
    assert!(Bitmap::blank(usize::MAX, 2).is_none());
    assert!(Bitmap::blank(usize::MAX / 4, 2).is_none());
}

#[test]
fn raw_buffer_must_match_the_size() {
    assert!(Bitmap::from_raw(2, 2, vec![0u8; 16]).is_some());
    assert!(Bitmap::from_raw(2, 2, vec![0u8; 15]).is_none());
    assert!(Bitmap::from_raw(2, 2, vec![0u8; 4]).is_none());
    assert!(Bitmap::from_raw(usize::MAX, usize::MAX, Vec::new()).is_none());
    assert!(Bitmap::from_raw(0, 7, Vec::new()).is_some());
}

#[test]
fn pixels_are_laid_out_row_by_row() {
    let image = gradient(5, 4, 9);
    assert_eq!(image.get_pixel(0, 0), (0, 0, 9, 255));
    assert_eq!(image.get_pixel(4, 0), (4, 0, 9, 255));
    assert_eq!(image.get_pixel(2, 3), (2, 3, 9, 255));
    assert_eq!(image.data[(3 * 5 + 2) * 4], 2);
    assert_eq!(image.data[(3 * 5 + 2) * 4 + 1], 3);
}

#[test]
fn replace_copies_and_clips() {
    let mut bottom = solid(4, 3, [1, 1, 1, 1]);
    let top = gradient(3, 3, 7);
    bottom.replace(&top, 2, 1);
    assert_eq!(bottom.width, 4);
    assert_eq!(bottom.height, 3);
    for y in 0..3 {
        for x in 0..4 {
            let expected = if x >= 2 && y >= 1 {
                ((x - 2) as u8, (y - 1) as u8, 7, 255)
            } else {
                (1, 1, 1, 1)
            };
            assert_eq!(bottom.get_pixel(x, y), expected);
        }
    }
}

#[test]
fn replace_outside_changes_nothing() {
    let mut bottom = solid(4, 3, [1, 2, 3, 4]);
    let top = gradient(3, 3, 7);
    bottom.replace(&top, 4, 0);
    bottom.replace(&top, 0, 3);
    bottom.replace(&top, usize::MAX, usize::MAX);
    bottom.replace(&Bitmap::blank(0, 0).unwrap(), 1, 1);
    assert_eq!(bottom.data, solid(4, 3, [1, 2, 3, 4]).data);
}

#[test]
fn replace_agrees_with_the_image_library() {
    let mut bottom = gradient(7, 5, 1);
    let top = gradient(4, 6, 2);
    let mut reference =
        image::RgbaImage::from_raw(7, 5, bottom.data.clone()).unwrap();
    let over = image::RgbaImage::from_raw(4, 6, top.data.clone()).unwrap();
    image::imageops::replace(&mut reference, &over, 5, 2);
    bottom.replace(&top, 5, 2);
    assert_eq!(bottom.data, reference.into_raw());
}

#[test]
fn quadrants_zero_and_two_fill_the_left_half() {
    let zero = gradient(TILE_SIZE, TILE_SIZE, 10);
    let two = gradient(TILE_SIZE, TILE_SIZE, 20);
    let mut store = TileStore::new();
    store.insert(TileKey { quadrant: 0, timestamp: 5 }, gradient(TILE_SIZE, TILE_SIZE, 10));
    store.insert(TileKey { quadrant: 2, timestamp: 5 }, gradient(TILE_SIZE, TILE_SIZE, 20));
    let canvas = store.assemble(5).unwrap();
    assert_eq!(canvas.width, FRAME_WIDTH);
    assert_eq!(canvas.height, FRAME_HEIGHT);
    assert_eq!(canvas.data.len(), FRAME_SIZE);
    for y in (0..FRAME_HEIGHT).step_by(7).chain([999, 1000, 1999]) {
        for x in (0..FRAME_WIDTH).step_by(11).chain([999, 1000, 1999]) {
            let expected = if x >= 1000 {
                (0, 0, 0, 0)
            } else if y < 1000 {
                zero.get_pixel(x, y)
            } else {
                two.get_pixel(x, y - 1000)
            };
            assert_eq!(canvas.get_pixel(x, y), expected);
        }
    }
    for y in 0..TILE_SIZE {
        let row = y * FRAME_WIDTH * 4;
        assert_eq!(canvas.data[row..row + 4000], zero.data[y * 4000..(y + 1) * 4000]);
        assert!(canvas.data[row + 4000..row + 8000].iter().all(|b| *b == 0));
        let low = (y + 1000) * FRAME_WIDTH * 4;
        assert_eq!(canvas.data[low..low + 4000], two.data[y * 4000..(y + 1) * 4000]);
        assert!(canvas.data[low + 4000..low + 8000].iter().all(|b| *b == 0));
    }
}

#[test]
fn all_four_quadrants_land_at_their_origins() {
    let mut quadrants = Quadrants::empty();
    for q in 0..4u8 {
        assert!(quadrants.get(q).is_none());
        quadrants.put(q, solid(TILE_SIZE, TILE_SIZE, [q + 1, 0, 0, 255]));
    }
    let canvas = composite(&quadrants);
    assert_eq!(canvas.get_pixel(0, 0), (1, 0, 0, 255));
    assert_eq!(canvas.get_pixel(999, 999), (1, 0, 0, 255));
    assert_eq!(canvas.get_pixel(1000, 0), (2, 0, 0, 255));
    assert_eq!(canvas.get_pixel(1999, 999), (2, 0, 0, 255));
    assert_eq!(canvas.get_pixel(0, 1000), (3, 0, 0, 255));
    assert_eq!(canvas.get_pixel(999, 1999), (3, 0, 0, 255));
    assert_eq!(canvas.get_pixel(1000, 1000), (4, 0, 0, 255));
    assert_eq!(canvas.get_pixel(1999, 1999), (4, 0, 0, 255));
}

#[test]
fn snapshot_without_tiles_composites_to_a_blank_frame() {
    let canvas = composite(&Quadrants::empty());
    assert_eq!(canvas.data, blank_frame().data);
    assert_eq!(canvas.data, vec![0u8; FRAME_SIZE]);
}

#[test]
fn small_tile_leaves_the_rest_of_its_region_blank() {
    let mut quadrants = Quadrants::empty();
    quadrants.put(3, solid(2, 3, [9, 9, 9, 9]));
    let canvas = composite(&quadrants);
    assert_eq!(canvas.get_pixel(1000, 1000), (9, 9, 9, 9));
    assert_eq!(canvas.get_pixel(1001, 1002), (9, 9, 9, 9));
    assert_eq!(canvas.get_pixel(1002, 1000), (0, 0, 0, 0));
    assert_eq!(canvas.get_pixel(1000, 1003), (0, 0, 0, 0));
    assert_eq!(canvas.data.iter().filter(|b| **b != 0).count(), 2 * 3 * 4);
}

#[test]
fn oversized_tile_is_cut_at_the_frame_and_overlaid_by_later_quadrants() {
    let mut quadrants = Quadrants::empty();
    quadrants.put(0, solid(1500, 1200, [1, 1, 1, 1]));
    quadrants.put(1, solid(1500, 10, [2, 2, 2, 2]));
    let canvas = composite(&quadrants);
    assert_eq!(canvas.get_pixel(999, 0), (1, 1, 1, 1));
    assert_eq!(canvas.get_pixel(1000, 0), (2, 2, 2, 2));
    assert_eq!(canvas.get_pixel(1999, 9), (2, 2, 2, 2));
    assert_eq!(canvas.get_pixel(1200, 10), (1, 1, 1, 1));
    assert_eq!(canvas.get_pixel(1499, 1199), (1, 1, 1, 1));
    assert_eq!(canvas.get_pixel(1500, 10), (0, 0, 0, 0));
    assert_eq!(canvas.get_pixel(0, 1200), (0, 0, 0, 0));
}

#[test]
fn later_tile_replaces_an_earlier_one_in_the_same_slot() {
    let mut store = TileStore::new();
    store.insert(TileKey { quadrant: 1, timestamp: 8 }, solid(4, 4, [1, 1, 1, 1]));
    store.insert(TileKey { quadrant: 1, timestamp: 8 }, solid(2, 2, [5, 5, 5, 5]));
    let canvas = store.assemble(8).unwrap();
    assert_eq!(canvas.get_pixel(1000, 0), (5, 5, 5, 5));
    assert_eq!(canvas.get_pixel(1003, 3), (0, 0, 0, 0));
    assert_eq!(store.len(), 1);
}

#[test]
fn arrival_order_does_not_matter() {
    let tiles: Vec<(TileKey, [u8; 4])> = vec![
        (TileKey { quadrant: 0, timestamp: 100 }, [1, 0, 0, 255]),
        (TileKey { quadrant: 3, timestamp: 100 }, [2, 0, 0, 255]),
        (TileKey { quadrant: 1, timestamp: 200 }, [3, 0, 0, 255]),
        (TileKey { quadrant: 2, timestamp: 100 }, [4, 0, 0, 255]),
        (TileKey { quadrant: 1, timestamp: 100 }, [5, 0, 0, 255]),
    ];
    let orders: [[usize; 5]; 4] = [[0, 1, 2, 3, 4], [4, 3, 2, 1, 0], [2, 0, 4, 1, 3], [3, 4, 0, 2, 1]];
    let mut frames: Vec<(Vec<u8>, Vec<u8>)> = Vec::new();
    for order in orders {
        let mut store = TileStore::new();
        for i in order {
            store.insert(tiles[i].0, solid(3, 3, tiles[i].1));
        }
        assert_eq!(store.len(), 2);
        assert!(store.contains(100));
        assert!(store.contains(200));
        assert!(!store.contains(300));
        let mut stamps = store.timestamps();
        stamps.sort();
        assert_eq!(stamps, vec![100, 200]);
        assert!(store.assemble(300).is_none());
        frames.push((store.assemble(100).unwrap().data, store.assemble(200).unwrap().data));
    }
    let first = &frames[0];
    assert_eq!(first.0[0], 1);
    assert_eq!(first.0[1000 * 4], 5);
    assert_eq!(first.0[1000 * FRAME_WIDTH * 4], 4);
    assert_eq!(first.0[(1000 * FRAME_WIDTH + 1000) * 4], 2);
    assert_eq!(first.1[1000 * 4], 3);
    assert_eq!(first.1[0], 0);
    assert!(frames.iter().all(|f| f == first));
}

#[test]
fn timestamps_come_in_order_of_first_arrival() {
    let mut store = TileStore::new();
    assert_eq!(store.timestamps(), Vec::<i64>::new());
    store.insert(TileKey { quadrant: 0, timestamp: 30 }, solid(1, 1, [1, 1, 1, 1]));
    store.insert(TileKey { quadrant: 0, timestamp: -10 }, solid(1, 1, [1, 1, 1, 1]));
    store.insert(TileKey { quadrant: 1, timestamp: 30 }, solid(1, 1, [1, 1, 1, 1]));
    store.insert(TileKey { quadrant: 0, timestamp: 20 }, solid(1, 1, [1, 1, 1, 1]));
    assert_eq!(store.timestamps(), vec![30, -10, 20]);
    assert_eq!(store.len(), 3);
}

#[test]
fn decoder_yields_rgba_rows() {
    let image = gradient(6, 4, 3);
    let decoded = decode_image("tiles/0-1.png", &png(&image)).unwrap();
    assert_eq!(decoded.width, 6);
    assert_eq!(decoded.height, 4);
    assert_eq!(decoded.data, image.data);
    assert_ne!(decoded.data, png(&image));
}

#[test]
fn decoder_converts_other_pixel_formats_to_rgba() {
    let gray = image::GrayImage::from_raw(2, 1, vec![10, 200]).unwrap();
    let mut bytes = Vec::new();
    gray.write_to(&mut Cursor::new(&mut bytes), image::ImageOutputFormat::Png).unwrap();
    let decoded = decode_image("g.png", &bytes).unwrap();
    assert_eq!(decoded.data, vec![10, 10, 10, 255, 200, 200, 200, 255]);
}

#[test]
fn decoder_goes_by_the_extension() {
    let bytes = png(&gradient(2, 2, 1));
    assert!(decode_image("a.png", &bytes).is_ok());
    assert!(decode_image("a.PNG", &bytes).is_ok());
    assert_eq!(decode_image("a.jpg", &bytes).err(), Some(Error::ImageDecode));
    assert_eq!(decode_image("a", &bytes).err(), Some(Error::ImageDecode));
    assert_eq!(decode_image("a.unknown", &bytes).err(), Some(Error::ImageDecode));
    assert_eq!(decode_image("a.png", b"no image").err(), Some(Error::ImageDecode));
    assert_eq!(decode_image("a.png", &bytes[..bytes.len() / 2]).err(), Some(Error::ImageDecode));
}

#[test]
fn ingest_reads_name_and_contents() {
    let mut store = TileStore::new();
    let tile = gradient(TILE_SIZE, TILE_SIZE, 4);
    assert_eq!(store.ingest("1-77.png", &png(&tile)), Ok(()));
    assert!(store.contains(77));
    let canvas = store.assemble(77).unwrap();
    assert_eq!(canvas.get_pixel(1000 + 12, 34), (12, 34, 4, 255));
    assert_eq!(canvas.get_pixel(12, 34), (0, 0, 0, 0));
}

#[test]
fn failed_ingest_changes_nothing() {
    let mut store = TileStore::new();
    let bytes = png(&solid(2, 2, [1, 2, 3, 4]));
    assert_eq!(store.ingest("0-1.png", &bytes), Ok(()));
    assert_eq!(store.ingest("zero-2.png", &bytes), Err(Error::Parse));
    assert_eq!(store.ingest("7-2.png", &bytes), Err(Error::UnsupportedQuadrant));
    assert_eq!(store.ingest("1-2.png", b"garbage"), Err(Error::ImageDecode));
    assert_eq!(store.ingest("1-2.gif", &bytes), Err(Error::ImageDecode));
    assert_eq!(store.ingest("x-2.png", b"garbage"), Err(Error::Parse));
    assert_eq!(store.timestamps(), vec![1]);
    assert!(!store.contains(2));
}

#[test]
fn batch_with_a_bad_name_aborts_with_parse_error() {
    let image = solid(2, 2, [1, 2, 3, 4]);
    let files = vec![
        tile_file("0-10.png", &image),
        tile_file("1-10.png", &image),
        tile_file("oops.png", &image),
        tile_file("2-10.png", &image),
        tile_file("3-10.png", &image),
    ];
    match TileStore::ingest_all(&files) {
        Err(e) => assert_eq!(e, Error::Parse),
        Ok(_) => panic!("a batch with a bad name came through"),
    }
}

#[test]
fn batch_fails_with_its_first_error() {
    let image = solid(2, 2, [1, 2, 3, 4]);
    let files = vec![
        tile_file("0-10.png", &image),
        SourceFile { name: "1-10.png".to_string(), contents: vec![1, 2, 3] },
        tile_file("9-10.png", &image),
        tile_file("oops.png", &image),
    ];
    assert_eq!(TileStore::ingest_all(&files).err(), Some(Error::ImageDecode));
    let files = vec![tile_file("9-10.png", &image), tile_file("oops.png", &image)];
    assert_eq!(TileStore::ingest_all(&files).err(), Some(Error::UnsupportedQuadrant));
}

#[test]
fn good_batch_gives_the_collection() {
    let files = vec![
        tile_file("0-10.png", &solid(2, 2, [1, 1, 1, 1])),
        tile_file("3-20.png", &solid(2, 2, [2, 2, 2, 2])),
        tile_file("3-10.png", &solid(2, 2, [3, 3, 3, 3])),
    ];
    let store = TileStore::ingest_all(&files).ok().unwrap();
    assert_eq!(store.timestamps(), vec![10, 20]);
    let ten = store.assemble(10).unwrap();
    assert_eq!(ten.get_pixel(1, 1), (1, 1, 1, 1));
    assert_eq!(ten.get_pixel(1001, 1001), (3, 3, 3, 3));
    let twenty = store.assemble(20).unwrap();
    assert_eq!(twenty.get_pixel(1, 1), (0, 0, 0, 0));
    assert_eq!(twenty.get_pixel(1001, 1001), (2, 2, 2, 2));
    let none = TileStore::ingest_all(&Vec::new()).ok().unwrap();
    assert_eq!(none.len(), 0);
}

#[test]
fn parallel_arrivals_under_one_lock_lose_no_tile() {
    let keys: Vec<TileKey> = (0..40i64)
        .flat_map(|timestamp| (0..4u8).map(move |quadrant| TileKey { quadrant, timestamp }))
        .collect();
    let db = Mutex::new(TileStore::new());
    keys.par_iter().for_each(|key| {
        let shade = (key.timestamp * 4 + key.quadrant as i64) as u8 + 1;
        let tile = solid(2, 2, [shade, shade, shade, 255]);
        db.lock().insert(*key, tile);
    });
    let store = db.into_inner();
    assert_eq!(store.len(), 40);
    let mut stamps = store.timestamps();
    stamps.sort();
    assert_eq!(stamps, (0..40i64).collect::<Vec<i64>>());
    for timestamp in [0i64, 17, 39] {
        let canvas = store.assemble(timestamp).unwrap();
        for quadrant in 0..4u8 {
            let shade = (timestamp * 4 + quadrant as i64) as u8 + 1;
            let x = (quadrant as usize % 2) * TILE_SIZE;
            let y = (quadrant as usize / 2) * TILE_SIZE;
            assert_eq!(canvas.get_pixel(x + 1, y + 1), (shade, shade, shade, 255));
        }
    }
}
