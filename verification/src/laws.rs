//! What holds across the parts of the library: of the producer and the
//! player together, of tiles whatever order they arrive in, of the player
//! at the ends of its frame list.
use crate::assembler::ingested;
use crate::assembler::is_composite;
use crate::assembler::layered_byte;
use crate::assembler::tile_source;
use crate::assembler::valid_slots;
use crate::assembler::with_tile;
use crate::bitmap::Image;
use crate::codec::gz_decoded;
use crate::codec::image_decoded;
use crate::encoder::arranged;
use crate::encoder::batch_bounds;
use crate::encoder::batch_count;
use crate::encoder::BATCH_SIZE;
use crate::encoder::file_names;
use crate::encoder::is_sorted_order;
use crate::encoder::lex_le_from;
use crate::encoder::precedes;
use crate::encoder::raw_bytes;
use crate::encoder::raw_concat;
use crate::error::Error;
use crate::layout::FRAME_HEIGHT;
use crate::layout::FRAME_SIZE;
use crate::layout::FRAME_WIDTH;
use crate::layout::TILE_SIZE;
use crate::playback::ModelView;
use crate::playback::shown_pixel;
use crate::playback::split_frames;
use crate::source::SourceFile;
use crate::tile::quadrant_origin;
use crate::tile::TileKey;
use vstd::prelude::*;

verus! {

/// Whether every file decodes to an image of exactly one frame's bytes.
pub open spec fn all_frames(files: Seq<SourceFile>) -> bool {
    forall|i: int| 0 <= i < files.len() ==> (#[trigger] raw_bytes(files[i])).len() == FRAME_SIZE
}

/// Frames laid end to end can be cut apart again: the stream of `n` frames
/// has `n` times the frame size, and its `i`-th chunk is the `i`-th frame.
pub proof fn lemma_stream_of_frames(files: Seq<SourceFile>)
    requires
        all_frames(files),
    ensures
        raw_concat(files).len() == files.len() * FRAME_SIZE,
        split_frames(raw_concat(files)) == Seq::new(files.len(), |i: int| raw_bytes(files[i])),
    decreases files.len(),
{
    let stream = raw_concat(files);
    if files.len() == 0 {
        assert(split_frames(stream) =~= Seq::new(files.len(), |i: int| raw_bytes(files[i])));
    } else {
        let front = files.drop_last();
        assert forall|i: int| 0 <= i < front.len() implies (#[trigger] raw_bytes(front[i])).len()
            == FRAME_SIZE by {
            assert(front[i] == files[i]);
        }
        lemma_stream_of_frames(front);
        let head = raw_concat(front);
        let last = raw_bytes(files.last());
        assert(stream == head + last);
        assert(stream.len() == files.len() * FRAME_SIZE);
        let cut = split_frames(stream);
        let want = Seq::new(files.len(), |i: int| raw_bytes(files[i]));
        assert(cut.len() == files.len());
        assert forall|i: int| 0 <= i < files.len() implies cut[i] == want[i] by {
            if i < front.len() {
                assert(split_frames(head)[i] == raw_bytes(front[i]));
                assert(stream.subrange(i * FRAME_SIZE, (i + 1) * FRAME_SIZE) =~= head.subrange(
                    i * FRAME_SIZE,
                    (i + 1) * FRAME_SIZE,
                ));
            } else {
                assert(stream.subrange(i * FRAME_SIZE, (i + 1) * FRAME_SIZE) =~= last);
            }
        }
        assert(cut =~= want);
    }
}

/// Round trip. Where a compressed stream decompresses to the raw pixels of
/// frame-sized images taken in the order of their names, a player that
/// receives it holds exactly those images' bytes as its frames, in that
/// order, and displays the first.
pub proof fn lemma_round_trip(
    files: Seq<SourceFile>,
    order: Seq<usize>,
    blob: Seq<u8>,
    player: ModelView,
)
    requires
        all_frames(files),
        is_sorted_order(file_names(files), order),
        gz_decoded(blob) == Some(raw_concat(arranged(files, order))),
    ensures
        player.received(blob).frames == Seq::new(
            files.len(),
            |i: int| raw_bytes(files[order[i] as int]),
        ),
        player.received(blob).current == if files.len() > 0 {
            Some(0nat)
        } else {
            None
        },
        player.received(blob).active == player.active,
{
    let sorted = arranged(files, order);
    assert forall|i: int| 0 <= i < sorted.len() implies (#[trigger] raw_bytes(sorted[i])).len()
        == FRAME_SIZE by {
        assert(sorted[i] == files[order[i] as int]);
    }
    lemma_stream_of_frames(sorted);
    assert(Seq::new(sorted.len(), |i: int| raw_bytes(sorted[i])) =~= Seq::new(
        files.len(),
        |i: int| raw_bytes(files[order[i] as int]),
    ));
}

/// Two byte strings that each come no later than the other are equal.
pub proof fn lemma_lex_le_antisymmetric(a: Seq<u8>, b: Seq<u8>, i: int)
    requires
        0 <= i <= a.len(),
        i <= b.len(),
        forall|j: int| 0 <= j < i ==> a[j] == b[j],
        lex_le_from(a, b, i),
        lex_le_from(b, a, i),
    ensures
        a == b,
    decreases a.len() - i,
{
    if i < a.len() {
        lemma_lex_le_antisymmetric(a, b, i + 1);
    } else {
        assert(a =~= b);
    }
}

/// Of two different indices exactly one goes before the other.
pub proof fn lemma_precedes_is_strict(names: Seq<Seq<u8>>, p: int, q: int)
    ensures
        !(precedes(names, p, q) && precedes(names, q, p)),
{
    if precedes(names, p, q) && precedes(names, q, p) {
        lemma_lex_le_antisymmetric(names[p], names[q], 0);
    }
}

/// Two sorted orders of the same names agree at every position.
proof fn lemma_sorted_orders_agree(names: Seq<Seq<u8>>, a: Seq<usize>, b: Seq<usize>, i: int)
    requires
        is_sorted_order(names, a),
        is_sorted_order(names, b),
        0 <= i < a.len(),
    ensures
        a[i] == b[i],
    decreases i,
{
    assert forall|j: int| 0 <= j < i implies a[j] == b[j] by {
        lemma_sorted_orders_agree(names, a, b, j);
    }
    if a[i] != b[i] {
        assert(b.contains(a[i]));
        let j = b.index_of(a[i]);
        assert(a.contains(b[i]));
        let k = a.index_of(b[i]);
        if j < i {
            assert(precedes(names, a[j] as int, a[i] as int));
        } else if k < i {
            assert(precedes(names, b[k] as int, b[i] as int));
        } else {
            assert(precedes(names, b[i] as int, b[j] as int));
            assert(precedes(names, a[i] as int, a[k] as int));
            lemma_precedes_is_strict(names, a[i] as int, b[i] as int);
        }
    }
}

/// There is one sorted order: the names decide where each frame goes.
pub proof fn lemma_sorted_order_is_unique(names: Seq<Seq<u8>>, a: Seq<usize>, b: Seq<usize>)
    requires
        is_sorted_order(names, a),
        is_sorted_order(names, b),
    ensures
        a == b,
{
    assert forall|i: int| 0 <= i < a.len() implies a[i] == b[i] by {
        lemma_sorted_orders_agree(names, a, b, i);
    }
    assert(a =~= b);
}

/// Batches take the frames in order, each frame once: the first batch
/// starts with the first frame, each later one where the one before it ended,
/// the last one ends with the last frame, and none is empty or longer than
/// `BATCH_SIZE`.
pub proof fn lemma_batches_partition(count: int, k: int)
    requires
        0 <= count,
        0 <= k < batch_count(count),
    ensures
        batch_bounds(count, k).0 < batch_bounds(count, k).1 <= count,
        batch_bounds(count, k).1 - batch_bounds(count, k).0 <= BATCH_SIZE,
        k == 0 ==> batch_bounds(count, k).0 == 0,
        k > 0 ==> batch_bounds(count, k).0 == batch_bounds(count, k - 1).1,
        k == batch_count(count) - 1 ==> batch_bounds(count, k).1 == count,
{
}

/// Cutting a run of files in two does not change what they contribute:
/// batches written one after the other make the same stream as all files
/// at once.
pub proof fn lemma_raw_concat_split(files: Seq<SourceFile>, at: int)
    requires
        0 <= at <= files.len(),
    ensures
        raw_concat(files) == raw_concat(files.take(at)) + raw_concat(files.skip(at)),
    decreases files.len(),
{
    if at == files.len() {
        assert(files.take(at) =~= files);
        assert(raw_concat(files.skip(at)) =~= Seq::<u8>::empty());
        assert(raw_concat(files) =~= raw_concat(files) + Seq::<u8>::empty());
    } else {
        let front = files.drop_last();
        lemma_raw_concat_split(front, at);
        assert(front.take(at) =~= files.take(at));
        assert(files.skip(at).drop_last() =~= front.skip(at));
        assert(files.skip(at).last() == files.last());
        assert(raw_concat(files) =~= raw_concat(files.take(at)) + raw_concat(files.skip(at)));
    }
}

/// A file that does not decode leaves no trace in the stream: the stream is
/// that of the other files, and every frame after the missing one comes one
/// position earlier.
pub proof fn lemma_undecodable_file_adds_nothing(files: Seq<SourceFile>, k: int)
    requires
        0 <= k < files.len(),
        image_decoded(files[k].name@, files[k].contents@) is None,
    ensures
        raw_concat(files) == raw_concat(files.remove(k)),
    decreases files.len(),
{
    let front = files.drop_last();
    if k == files.len() - 1 {
        assert(files.remove(k) =~= front);
        assert(raw_concat(files) =~= raw_concat(front));
    } else {
        lemma_undecodable_file_adds_nothing(front, k);
        assert(files.remove(k).drop_last() =~= front.remove(k));
        assert(files.remove(k).last() == files.last());
    }
}

/// A rest at the end of a stream that is shorter than a frame is dropped:
/// the frames are those of the stream without it.
pub proof fn lemma_trailing_bytes_dropped(frames: Seq<u8>, rest: Seq<u8>)
    requires
        frames.len() % FRAME_SIZE as nat == 0,
        rest.len() < FRAME_SIZE,
    ensures
        split_frames(frames + rest) == split_frames(frames),
        split_frames(frames + rest).len() * FRAME_SIZE == frames.len(),
{
    let whole = frames + rest;
    let a = split_frames(whole);
    let b = split_frames(frames);
    assert(a.len() == b.len());
    assert forall|i: int| 0 <= i < a.len() implies a[i] == b[i] by {
        assert(whole.subrange(i * FRAME_SIZE, (i + 1) * FRAME_SIZE) =~= frames.subrange(
            i * FRAME_SIZE,
            (i + 1) * FRAME_SIZE,
        ));
    }
    assert(a =~= b);
}

/// Every frame that a stream is cut into is complete, so whatever is loaded
/// leaves the player valid.
pub proof fn lemma_loaded_is_valid(player: ModelView, pixels: Seq<u8>)
    ensures
        player.loaded(pixels).valid(),
        player.loaded(pixels).frames.len() == pixels.len() / FRAME_SIZE as nat,
{
}

/// The player shows a stored image mirrored along its diagonal: what it
/// shows at column `x` of row `y` is the image's pixel at column `y` of
/// row `x`.
pub proof fn lemma_shown_pixel_is_transposed(canvas: Image, x: int, y: int)
    requires
        canvas.wf(),
        canvas.width == FRAME_WIDTH,
        canvas.height == FRAME_HEIGHT,
        0 <= x < FRAME_WIDTH,
        0 <= y < FRAME_HEIGHT,
    ensures
        shown_pixel(canvas.bytes, x, y) == canvas.pixel_at(y, x),
{
}

/// A composited frame has exactly the bytes of one frame of the stream.
pub proof fn lemma_composite_is_a_frame(canvas: Image, slots: Seq<Option<Image>>)
    requires
        is_composite(canvas, slots),
    ensures
        canvas.bytes.len() == FRAME_SIZE,
{
}

/// Whether every tile present has the size of a quadrant's region.
pub open spec fn tiles_fit(slots: Seq<Option<Image>>) -> bool {
    forall|q: int|
        0 <= q < 4 ==> ((#[trigger] slots[q]) matches Some(tile) ==> tile.width == TILE_SIZE
            && tile.height == TILE_SIZE)
}

/// Quadrant compositing. In the frame composited from tiles of the
/// regular size, the region of each quadrant that has a tile equals the
/// tile, and the region of each quadrant that has none is transparent
/// black.
pub proof fn lemma_composite_regions(canvas: Image, slots: Seq<Option<Image>>, q: int, x: int, y: int, c: int)
    requires
        valid_slots(slots),
        tiles_fit(slots),
        is_composite(canvas, slots),
        0 <= q < 4,
        0 <= x < TILE_SIZE,
        0 <= y < TILE_SIZE,
        0 <= c < 4,
    ensures
        canvas.byte_at(quadrant_origin(q).0 + x, quadrant_origin(q).1 + y, c) == match slots[q] {
            Some(tile) => tile.byte_at(x, y, c),
            None => 0u8,
        },
{
    reveal_with_fuel(layered_byte, 5);
    let px = quadrant_origin(q).0 + x;
    let py = quadrant_origin(q).1 + y;
    assert(canvas.byte_at(px, py, c) == layered_byte(slots, 4, px, py, c));
    assert(slots[0] is Some ==> slots[0]->0.width == TILE_SIZE);
    assert(slots[1] is Some ==> slots[1]->0.width == TILE_SIZE);
    assert(slots[2] is Some ==> slots[2]->0.width == TILE_SIZE);
    assert(slots[3] is Some ==> slots[3]->0.width == TILE_SIZE);
}

/// No update is lost. After a tile arrived it sits in its slot, and every
/// other slot of every snapshot holds what it held before.
pub proof fn lemma_with_tile_keeps(
    tiles: Map<i64, Seq<Option<Image>>>,
    key: TileKey,
    tile: Image,
    timestamp: i64,
    quadrant: int,
)
    requires
        key.wf(),
        0 <= quadrant < 4,
        tiles.contains_key(key.timestamp) ==> tiles[key.timestamp].len() == 4,
    ensures
        with_tile(tiles, key, tile).contains_key(key.timestamp),
        with_tile(tiles, key, tile)[key.timestamp][key.quadrant as int] == Some(tile),
        tiles.contains_key(timestamp) ==> with_tile(tiles, key, tile).contains_key(timestamp),
        tiles.contains_key(timestamp) && (timestamp != key.timestamp || quadrant != key.quadrant)
            ==> with_tile(tiles, key, tile)[timestamp][quadrant] == tiles[timestamp][quadrant],
        !tiles.contains_key(key.timestamp) && quadrant != key.quadrant ==> with_tile(
            tiles,
            key,
            tile,
        )[key.timestamp][quadrant] is None,
{
}

/// Arrival order does not matter. Two tiles for different slots, of one
/// snapshot or of two, leave the same collection whichever arrives first.
pub proof fn lemma_with_tile_commutes(
    tiles: Map<i64, Seq<Option<Image>>>,
    first: TileKey,
    a: Image,
    second: TileKey,
    b: Image,
)
    requires
        first.wf(),
        second.wf(),
        first != second,
        forall|t: i64| tiles.contains_key(t) ==> (#[trigger] tiles[t]).len() == 4,
    ensures
        with_tile(with_tile(tiles, first, a), second, b) == with_tile(
            with_tile(tiles, second, b),
            first,
            a,
        ),
{
    let one = with_tile(with_tile(tiles, first, a), second, b);
    let other = with_tile(with_tile(tiles, second, b), first, a);
    assert(one.dom() =~= other.dom());
    assert forall|t: i64| one.contains_key(t) implies one[t] =~= other[t] by {}
    assert(one =~~= other);
}

/// Fail fast. A batch of tile files gives a collection exactly if every
/// file in it is good.
pub proof fn lemma_ingested_all_or_nothing(files: Seq<SourceFile>)
    ensures
        ingested(files) is Ok <==> forall|i: int|
            0 <= i < files.len() ==> (#[trigger] tile_source(
                files[i].name@,
                files[i].contents@,
            )) is Ok,
    decreases files.len(),
{
    if files.len() > 0 {
        let front = files.drop_last();
        lemma_ingested_all_or_nothing(front);
        assert forall|i: int| 0 <= i < front.len() implies front[i] == files[i] by {}
        if ingested(files) is Ok {
            assert forall|i: int| 0 <= i < files.len() implies (#[trigger] tile_source(
                files[i].name@,
                files[i].contents@,
            )) is Ok by {
                if i < front.len() {
                    assert(front[i] == files[i]);
                }
            }
        } else {
            if ingested(front) is Ok {
                assert(tile_source(files.last().name@, files.last().contents@) is Err);
                assert(files[files.len() - 1] == files.last());
            } else {
                let i = choose|i: int|
                    0 <= i < front.len() && !((#[trigger] tile_source(
                        front[i].name@,
                        front[i].contents@,
                    )) is Ok);
                assert(front[i] == files[i]);
            }
        }
    }
}

/// Fail fast. The error of a batch is that of its first bad file.
pub proof fn lemma_ingested_first_failure(files: Seq<SourceFile>, bad: int)
    requires
        0 <= bad < files.len(),
        tile_source(files[bad].name@, files[bad].contents@) is Err,
        forall|i: int|
            0 <= i < bad ==> (#[trigger] tile_source(files[i].name@, files[i].contents@)) is Ok,
    ensures
        ingested(files) == Err::<(Map<i64, Seq<Option<Image>>>, Seq<i64>), Error>(
            tile_source(files[bad].name@, files[bad].contents@)->Err_0,
        ),
    decreases files.len(),
{
    let front = files.drop_last();
    if bad == files.len() - 1 {
        assert forall|i: int| 0 <= i < front.len() implies (#[trigger] tile_source(
            front[i].name@,
            front[i].contents@,
        )) is Ok by {
            assert(front[i] == files[i]);
        }
        lemma_ingested_all_or_nothing(front);
    } else {
        assert(front[bad] == files[bad]);
        assert forall|i: int| 0 <= i < bad implies (#[trigger] tile_source(
            front[i].name@,
            front[i].contents@,
        )) is Ok by {
            assert(front[i] == files[i]);
        }
        lemma_ingested_first_failure(front, bad);
    }
}

/// Navigation stops at the ends: a step backward at the first frame and a
/// step forward at the last change nothing.
pub proof fn lemma_steps_stop_at_the_ends(player: ModelView)
    requires
        player.valid(),
    ensures
        player.current == Some(0nat) ==> player.stepped_backward() == player,
        player.current == Some((player.frames.len() - 1) as nat) ==> player.stepped_forward()
            == player,
{
}

/// Without frames there is no position, and no step makes one.
pub proof fn lemma_steps_without_frames(player: ModelView)
    requires
        player.valid(),
        player.frames.len() == 0,
    ensures
        player.current is None,
        player.stepped_forward() == player,
        player.stepped_backward() == player,
        player.ticked() == player,
{
}

/// Every event leaves a valid player valid.
pub proof fn lemma_steps_keep_valid(player: ModelView)
    requires
        player.valid(),
    ensures
        player.stepped_forward().valid(),
        player.stepped_backward().valid(),
        player.ticked().valid(),
        player.playing(true).valid(),
        player.playing(false).valid(),
{
}

/// The state after `n` ticks of the timer.
pub open spec fn ticks(player: ModelView, n: nat) -> ModelView
    decreases n,
{
    if n == 0 {
        player
    } else {
        ticks(player, (n - 1) as nat).ticked()
    }
}

/// Autoplay. While playing, `n` ticks move the position `n` frames forward,
/// but not past the last frame; while paused they move nothing.
pub proof fn lemma_autoplay(player: ModelView, n: nat)
    requires
        player.valid(),
    ensures
        ticks(player, n).frames == player.frames,
        ticks(player, n).active == player.active,
        ticks(player, n).current == match player.current {
            Some(i) if player.active => Some(
                if i + n < player.frames.len() {
                    i + n
                } else {
                    (player.frames.len() - 1) as nat
                },
            ),
            _ => player.current,
        },
    decreases n,
{
    if n > 0 {
        lemma_autoplay(player, (n - 1) as nat);
    }
}

/// A failed reload keeps what was loaded. A stream that does not decompress
/// leaves the frames, the position and the play flag as they were.
pub proof fn lemma_failed_reload_keeps_state(player: ModelView, data: Seq<u8>)
    requires
        gz_decoded(data) is None,
    ensures
        player.received(data) == player,
{
}

} // verus!
