//! Tile assembly: tiles are collected by timestamp, four quadrants to a
//! snapshot, and each snapshot is composited into one frame.
use crate::bitmap::Bitmap;
use crate::bitmap::covers;
use crate::bitmap::Image;
use crate::bitmap::lemma_pixel_offset_bounds;
use crate::codec::decode_image;
use crate::codec::image_decoded;
use crate::error::Error;
use crate::layout::FRAME_HEIGHT;
use crate::layout::FRAME_SIZE;
use crate::layout::FRAME_WIDTH;
use crate::source::SourceFile;
use crate::tile::parse_tile_name;
use crate::tile::quadrant_offset;
use crate::tile::quadrant_origin;
use crate::tile::tile_key_of;
use crate::tile::TileKey;
use std::collections::HashMap;
use vstd::prelude::*;
use vstd::std_specs::hash::group_hash_axioms;
use vstd::utf8::encode_utf8;

verus! {

/// Four slots with no tile in any.
pub open spec fn empty_slots() -> Seq<Option<Image>> {
    Seq::new(4, |q: int| None::<Image>)
}

/// There are four slots, and each tile in one is a well-formed image.
pub open spec fn valid_slots(slots: Seq<Option<Image>>) -> bool {
    &&& slots.len() == 4
    &&& forall|q: int| 0 <= q < 4 ==> ((#[trigger] slots[q]) matches Some(tile) ==> tile.wf())
}

/// Byte `c` of pixel `(px, py)` of a blank frame after the tiles of the
/// quadrants below `upto` were placed in the order of their ids: the byte of
/// the last of them whose tile covers the pixel, or zero where none does.
pub open spec fn layered_byte(
    slots: Seq<Option<Image>>,
    upto: int,
    px: int,
    py: int,
    c: int,
) -> u8
    decreases upto,
{
    if upto <= 0 {
        0
    } else {
        let (x, y) = quadrant_origin(upto - 1);
        match slots[upto - 1] {
            Some(tile) if covers(tile.width as int, tile.height as int, x, y, px, py) => tile.byte_at(
                px - x,
                py - y,
                c,
            ),
            _ => layered_byte(slots, upto - 1, px, py, c),
        }
    }
}

/// Whether `canvas` is the frame composited from the given quadrants: a
/// frame-sized image in which each present tile lies at its quadrant's
/// origin, cut off at the frame's edge and overlaid by the tiles of later
/// quadrants where they reach into it, and every pixel that no tile covers
/// is transparent black.
pub open spec fn is_composite(canvas: Image, slots: Seq<Option<Image>>) -> bool {
    &&& canvas.wf()
    &&& canvas.width == FRAME_WIDTH
    &&& canvas.height == FRAME_HEIGHT
    &&& forall|px: int, py: int, c: int|
        0 <= px < FRAME_WIDTH && 0 <= py < FRAME_HEIGHT && 0 <= c < 4 ==> #[trigger] canvas.byte_at(
            px,
            py,
            c,
        ) == layered_byte(slots, 4, px, py, c)
}

/// The tiles of one snapshot, by quadrant.
pub struct Quadrants {
    slots: Vec<Option<Bitmap>>,
}

impl View for Quadrants {
    type V = Seq<Option<Image>>;

    closed spec fn view(&self) -> Seq<Option<Image>> {
        Seq::new(
            self.slots@.len(),
            |q: int|
                match self.slots@[q] {
                    Some(tile) => Some(tile@),
                    None => None,
                },
        )
    }
}

impl Quadrants {
    /// The slots are valid.
    pub open spec fn wf(&self) -> bool {
        valid_slots(self@)
    }

    /// A snapshot without tiles.
    pub fn empty() -> (quadrants: Quadrants)
        ensures
            quadrants@ == empty_slots(),
            quadrants.wf(),
    {
        let mut slots: Vec<Option<Bitmap>> = Vec::new();
        slots.push(None);
        slots.push(None);
        slots.push(None);
        slots.push(None);
        let quadrants = Quadrants { slots };
        assert(quadrants@ =~= empty_slots());
        quadrants
    }

    /// Puts a tile into a quadrant's slot, in place of what was there.
    pub fn put(&mut self, quadrant: u8, tile: Bitmap)
        requires
            old(self).wf(),
            quadrant < 4,
            tile.wf(),
        ensures
            final(self)@ == old(self)@.update(quadrant as int, Some(tile@)),
            final(self).wf(),
    {
        self.slots.set(quadrant as usize, Some(tile));
        assert(self@ =~= old(self)@.update(quadrant as int, Some(tile@)));
    }

    /// The tile in a quadrant's slot.
    pub fn get(&self, quadrant: u8) -> (tile: Option<&Bitmap>)
        requires
            self.wf(),
            quadrant < 4,
        ensures
            match tile {
                Some(t) => self@[quadrant as int] == Some(t@) && t.wf(),
                None => self@[quadrant as int] is None,
            },
    {
        self.slots[quadrant as usize].as_ref()
    }
}

/// A frame with every pixel transparent black.
pub fn blank_frame() -> (canvas: Bitmap)
    ensures
        canvas.wf(),
        canvas.width == FRAME_WIDTH,
        canvas.height == FRAME_HEIGHT,
        canvas@.is_blank(),
{
    assert(FRAME_WIDTH * FRAME_HEIGHT * 4 == FRAME_SIZE);
    Bitmap { width: FRAME_WIDTH, height: FRAME_HEIGHT, data: vec![0u8; FRAME_SIZE] }
}

/// Composites the tiles of one snapshot into a frame.
pub fn composite(quadrants: &Quadrants) -> (canvas: Bitmap)
    requires
        quadrants.wf(),
    ensures
        is_composite(canvas@, quadrants@),
{
    let mut canvas = blank_frame();
    proof {
        assert forall|px: int, py: int, c: int|
            0 <= px < FRAME_WIDTH && 0 <= py < FRAME_HEIGHT && 0 <= c < 4 implies (
        #[trigger] canvas@.byte_at(px, py, c)) == layered_byte(quadrants@, 0, px, py, c) by {
            lemma_pixel_offset_bounds(FRAME_WIDTH as int, FRAME_HEIGHT as int, px, py);
        }
    }
    let mut q: u8 = 0;
    while q < 4
        invariant
            q <= 4,
            quadrants.wf(),
            canvas.wf(),
            canvas.width == FRAME_WIDTH,
            canvas.height == FRAME_HEIGHT,
            forall|px: int, py: int, c: int|
                0 <= px < FRAME_WIDTH && 0 <= py < FRAME_HEIGHT && 0 <= c < 4
                    ==> #[trigger] canvas@.byte_at(px, py, c) == layered_byte(
                    quadrants@,
                    q as int,
                    px,
                    py,
                    c,
                ),
        decreases 4 - q,
    {
        match quadrants.get(q) {
            Some(tile) => {
                let (x, y) = quadrant_offset(q);
                canvas.replace(tile, x, y);
            },
            None => {},
        }
        q += 1;
    }
    canvas
}

/// The slots of a snapshot in a collection: those stored under the
/// timestamp, or four empty ones where nothing is stored under it yet.
pub open spec fn slots_at(tiles: Map<i64, Seq<Option<Image>>>, timestamp: i64) -> Seq<
    Option<Image>,
> {
    if tiles.contains_key(timestamp) {
        tiles[timestamp]
    } else {
        empty_slots()
    }
}

/// A collection after a tile arrived: the tile sits in its quadrant's slot
/// of its snapshot, every other slot is as before.
pub open spec fn with_tile(tiles: Map<i64, Seq<Option<Image>>>, key: TileKey, tile: Image) -> Map<
    i64,
    Seq<Option<Image>>,
> {
    tiles.insert(
        key.timestamp,
        slots_at(tiles, key.timestamp).update(key.quadrant as int, Some(tile)),
    )
}

/// The arrivals after a tile of the given snapshot came in: the snapshot
/// joins at the end unless it is there already.
pub open spec fn arrived(arrivals: Seq<i64>, timestamp: i64) -> Seq<i64> {
    if arrivals.contains(timestamp) {
        arrivals
    } else {
        arrivals.push(timestamp)
    }
}

/// Every snapshot of a collection has valid slots.
pub open spec fn valid_tiles(tiles: Map<i64, Seq<Option<Image>>>) -> bool {
    forall|t: i64| tiles.contains_key(t) ==> valid_slots(#[trigger] tiles[t])
}

/// What a tile file holds: the key that its name gives and the image that
/// its contents decode to. The name is read first: a file with a bad name
/// fails on the name whatever it contains.
pub open spec fn tile_source(name: Seq<char>, contents: Seq<u8>) -> Result<(TileKey, Image), Error> {
    match tile_key_of(encode_utf8(name)) {
        Err(e) => Err(e),
        Ok(key) => match image_decoded(name, contents) {
            Some(tile) => Ok((key, tile)),
            None => Err(Error::ImageDecode),
        },
    }
}

/// The collection that a batch of tile files gives, taken in order, with
/// the order in which its snapshots arrived, or the error of the first file
/// that fails.
pub open spec fn ingested(files: Seq<SourceFile>) -> Result<
    (Map<i64, Seq<Option<Image>>>, Seq<i64>),
    Error,
>
    decreases files.len(),
{
    if files.len() == 0 {
        Ok((Map::empty(), Seq::empty()))
    } else {
        match ingested(files.drop_last()) {
            Err(e) => Err(e),
            Ok((tiles, arrivals)) => match tile_source(
                files.last().name@,
                files.last().contents@,
            ) {
                Err(e) => Err(e),
                Ok((key, tile)) => Ok(
                    (with_tile(tiles, key, tile), arrived(arrivals, key.timestamp)),
                ),
            },
        }
    }
}

/// The tiles collected so far, by the timestamp of their snapshot.
pub struct TileStore {
    map: HashMap<i64, Quadrants>,
    stamps: Vec<i64>,
}

impl View for TileStore {
    type V = Map<i64, Seq<Option<Image>>>;

    closed spec fn view(&self) -> Map<i64, Seq<Option<Image>>> {
        Map::new(|t: i64| self.map@.contains_key(t), |t: i64| self.map@[t]@)
    }
}

impl TileStore {
    /// The timestamps of the snapshots in the order in which their first
    /// tiles arrived.
    pub closed spec fn arrivals(&self) -> Seq<i64> {
        self.stamps@
    }

    /// Every snapshot has valid slots and is named once among the arrivals.
    pub open spec fn wf(&self) -> bool {
        &&& valid_tiles(self@)
        &&& self.arrivals().no_duplicates()
        &&& forall|t: i64| self.arrivals().contains(t) <==> self@.contains_key(t)
    }

    /// A collection without tiles.
    pub fn new() -> (store: TileStore)
        ensures
            store@ == Map::<i64, Seq<Option<Image>>>::empty(),
            store.arrivals() == Seq::<i64>::empty(),
            store.wf(),
    {
        let store = TileStore { map: HashMap::new(), stamps: Vec::new() };
        assert(store@ =~= Map::<i64, Seq<Option<Image>>>::empty());
        store
    }

    /// Takes a tile in. The whole step, finding the snapshot or starting it
    /// and filling the slot, is one call: whoever shares a collection
    /// between threads holds its lock around the call.
    pub fn insert(&mut self, key: TileKey, tile: Bitmap)
        requires
            old(self).wf(),
            key.wf(),
            tile.wf(),
        ensures
            final(self)@ == with_tile(old(self)@, key, tile@),
            final(self).arrivals() == arrived(old(self).arrivals(), key.timestamp),
            final(self).wf(),
    {
        broadcast use group_hash_axioms;

        let mut slots = match self.map.remove(&key.timestamp) {
            Some(found) => {
                assert(found@ == old(self)@[key.timestamp]);
                found
            },
            None => {
                self.stamps.push(key.timestamp);
                Quadrants::empty()
            },
        };
        slots.put(key.quadrant, tile);
        self.map.insert(key.timestamp, slots);
        assert(self@ =~= with_tile(old(self)@, key, tile@));
        proof {
            let before = old(self).stamps@;
            let now = self.stamps@;
            if old(self).map@.contains_key(key.timestamp) {
                assert(before.contains(key.timestamp));
                assert(now == before);
            } else {
                let n = before.len() as int;
                assert(now == before.push(key.timestamp));
                assert(!before.contains(key.timestamp));
                assert forall|i: int, j: int| 0 <= i < j < now.len() implies now[i] != now[j] by {
                    assert(before.contains(before[i]));
                }
                assert forall|t: i64| now.contains(t) <==> self@.contains_key(t) by {
                    if now.contains(t) {
                        let i = now.index_of(t);
                        if i < n {
                            assert(before.contains(before[i]));
                        }
                    }
                    if self@.contains_key(t) {
                        if t == key.timestamp {
                            assert(now[n] == t);
                        } else {
                            assert(before.contains(t));
                            let i = before.index_of(t);
                            assert(now[i] == t);
                        }
                    }
                }
            }
        }
    }

    /// Whether any tile of the snapshot with this timestamp has arrived.
    pub fn contains(&self, timestamp: i64) -> (present: bool)
        ensures
            present == self@.contains_key(timestamp),
    {
        broadcast use group_hash_axioms;

        self.map.contains_key(&timestamp)
    }

    /// Number of snapshots.
    pub fn len(&self) -> (n: usize)
        requires
            self.wf(),
        ensures
            n == self@.dom().len(),
    {
        proof {
            self.stamps@.unique_seq_to_set();
            assert(self.stamps@.to_set() =~= self@.dom());
        }
        self.stamps.len()
    }

    /// The timestamps of the snapshots, each once, in the order in which
    /// their first tiles arrived.
    pub fn timestamps(&self) -> (stamps: Vec<i64>)
        ensures
            stamps@ == self.arrivals(),
    {
        let mut stamps: Vec<i64> = Vec::new();
        let mut i: usize = 0;
        while i < self.stamps.len()
            invariant
                i <= self.stamps@.len(),
                stamps@ == self.stamps@.take(i as int),
            decreases self.stamps@.len() - i,
        {
            stamps.push(self.stamps[i]);
            assert(stamps@ =~= self.stamps@.take(i + 1));
            i += 1;
        }
        assert(stamps@ =~= self.stamps@);
        stamps
    }

    /// Composites the snapshot with this timestamp, or returns `None` where
    /// no tile of it has arrived.
    pub fn assemble(&self, timestamp: i64) -> (frame: Option<Bitmap>)
        requires
            self.wf(),
        ensures
            match frame {
                Some(canvas) => self@.contains_key(timestamp) && is_composite(
                    canvas@,
                    self@[timestamp],
                ),
                None => !self@.contains_key(timestamp),
            },
    {
        broadcast use group_hash_axioms;

        match self.map.get(&timestamp) {
            Some(quadrants) => {
                assert(quadrants@ == self@[timestamp]);
                Some(composite(quadrants))
            },
            None => None,
        }
    }

    /// Reads one tile file and takes its tile in.
    ///
    /// Fails, and changes nothing, where the name is no tile's name
    /// (`Error::Parse`, `Error::UnsupportedQuadrant`) or the contents do not
    /// decode (`Error::ImageDecode`).
    pub fn ingest(&mut self, name: &str, contents: &[u8]) -> (r: Result<(), Error>)
        requires
            old(self).wf(),
        ensures
            final(self).wf(),
            match tile_source(name@, contents@) {
                Ok((key, tile)) => r is Ok && final(self)@ == with_tile(old(self)@, key, tile)
                    && final(self).arrivals() == arrived(old(self).arrivals(), key.timestamp),
                Err(e) => r == Err::<(), Error>(e) && final(self)@ == old(self)@
                    && final(self).arrivals() == old(self).arrivals(),
            },
    {
        let key = match parse_tile_name(name) {
            Ok(key) => key,
            Err(e) => {
                return Err(e);
            },
        };
        let tile = match decode_image(name, contents) {
            Ok(tile) => tile,
            Err(e) => {
                return Err(e);
            },
        };
        self.insert(key, tile);
        Ok(())
    }

    /// Reads a batch of tile files, in order. The first file that fails
    /// ends the batch with its error, and no collection comes out of it.
    pub fn ingest_all(files: &Vec<SourceFile>) -> (r: Result<TileStore, Error>)
        ensures
            match ingested(files@) {
                Ok((tiles, arrivals)) => r matches Ok(store) && store@ == tiles
                    && store.arrivals() == arrivals && store.wf(),
                Err(e) => r matches Err(f) && f == e,
            },
    {
        let mut store = TileStore::new();
        let mut i: usize = 0;
        while i < files.len()
            invariant
                i <= files@.len(),
                store.wf(),
                ingested(files@.take(i as int)) == Ok::<
                    (Map<i64, Seq<Option<Image>>>, Seq<i64>),
                    Error,
                >((store@, store.arrivals())),
            decreases files@.len() - i,
        {
            let ghost longer = files@.take(i + 1);
            assert(longer.drop_last() =~= files@.take(i as int));
            assert(longer.last() == files@[i as int]);
            match store.ingest(files[i].name.as_str(), files[i].contents.as_slice()) {
                Ok(()) => {},
                Err(e) => {
                    proof {
                        lemma_ingested_fails_on(files@, i + 1);
                    }
                    return Err(e);
                },
            }
            i += 1;
        }
        assert(files@.take(i as int) =~= files@);
        Ok(store)
    }
}

/// A batch fails with the error that a prefix of it fails with.
pub proof fn lemma_ingested_fails_on(files: Seq<SourceFile>, n: int)
    requires
        0 <= n <= files.len(),
        ingested(files.take(n)) is Err,
    ensures
        ingested(files) == ingested(files.take(n)),
    decreases files.len() - n,
{
    if n == files.len() {
        assert(files.take(n) =~= files);
    } else {
        let longer = files.take(n + 1);
        assert(longer.drop_last() =~= files.take(n));
        lemma_ingested_fails_on(files, n + 1);
    }
}

} // verus!
