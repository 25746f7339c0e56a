//! The player: it holds the frames of one loaded stream, a position among
//! them and a play/pause flag, and changes only in answer to one event at a
//! time.
use crate::bitmap::Pixel;
use crate::codec::decompress;
use crate::codec::gz_decoded;
use crate::error::Error;
use crate::layout::FRAME_HEIGHT;
use crate::layout::FRAME_SIZE;
use crate::layout::FRAME_WIDTH;
use vstd::prelude::*;
use vstd::slice::slice_subrange;
use vstd::slice::slice_to_vec;

verus! {

/// The frames that a decompressed stream holds: consecutive chunks of
/// `FRAME_SIZE` bytes from its start. A shorter rest at the end belongs to no
/// frame.
pub open spec fn split_frames(pixels: Seq<u8>) -> Seq<Seq<u8>> {
    Seq::new(
        (pixels.len() / FRAME_SIZE as nat) as nat,
        |i: int| pixels.subrange(i * FRAME_SIZE, (i + 1) * FRAME_SIZE),
    )
}

/// Index of the pixel that the player shows at column `x` of row `y`.
///
/// The player counts `x * FRAME_WIDTH + y`, where a buffer laid out row by
/// row would have `y * FRAME_WIDTH + x`: it shows the stored image mirrored
/// along its diagonal. This is how the player reads the stream.
pub open spec fn pixel_index(x: int, y: int) -> int {
    x * FRAME_WIDTH + y
}

/// The pixel that the player shows at column `x` of row `y` of a frame with
/// the given bytes: the four bytes from offset `pixel_index(x, y) * 4`.
pub open spec fn shown_pixel(bytes: Seq<u8>, x: int, y: int) -> Pixel {
    let at = pixel_index(x, y) * 4;
    (bytes[at], bytes[at + 1], bytes[at + 2], bytes[at + 3])
}

/// Whether `rows` is the picture of a frame with the given bytes: one row
/// for each `y`, one pixel for each `x` in it.
pub open spec fn shows(rows: Seq<Vec<Pixel>>, bytes: Seq<u8>) -> bool {
    &&& rows.len() == FRAME_HEIGHT
    &&& forall|y: int| 0 <= y < FRAME_HEIGHT ==> (#[trigger] rows[y])@.len() == FRAME_WIDTH
    &&& forall|x: int, y: int|
        0 <= x < FRAME_WIDTH && 0 <= y < FRAME_HEIGHT ==> #[trigger] rows[y]@[x] == shown_pixel(
            bytes,
            x,
            y,
        )
}

/// One frame of the stream: `FRAME_SIZE` bytes.
pub struct Frame {
    bytes: Vec<u8>,
}

impl View for Frame {
    type V = Seq<u8>;

    closed spec fn view(&self) -> Seq<u8> {
        self.bytes@
    }
}

impl Frame {
    /// A frame has exactly `FRAME_SIZE` bytes.
    pub open spec fn wf(&self) -> bool {
        self@.len() == FRAME_SIZE
    }

    /// The frame over the given bytes, or `None` where they are not
    /// `FRAME_SIZE` many.
    pub fn from_bytes(bytes: Vec<u8>) -> (r: Option<Frame>)
        ensures
            match r {
                Some(f) => f.wf() && f@ == bytes@,
                None => bytes@.len() != FRAME_SIZE,
            },
    {
        if bytes.len() == FRAME_SIZE {
            Some(Frame { bytes })
        } else {
            None
        }
    }

    /// The frame's bytes.
    pub fn as_bytes(&self) -> (bytes: &[u8])
        ensures
            bytes@ == self@,
    {
        self.bytes.as_slice()
    }

    /// Index of the pixel shown at column `x` of row `y`. This counts
    /// pixels, not bytes: the pixel's bytes start at four times the index.
    pub fn get_offset(x: usize, y: usize) -> (i: usize)
        requires
            x < FRAME_WIDTH,
            y < FRAME_HEIGHT,
        ensures
            i == pixel_index(x as int, y as int),
            i < FRAME_WIDTH * FRAME_HEIGHT,
    {
        x * FRAME_WIDTH + y
    }

    /// The pixel shown at column `x` of row `y`.
    pub fn get_pixel(&self, x: usize, y: usize) -> (p: Pixel)
        requires
            self.wf(),
            x < FRAME_WIDTH,
            y < FRAME_HEIGHT,
        ensures
            p == shown_pixel(self@, x as int, y as int),
    {
        let i = Self::get_offset(x, y) * 4;
        (self.bytes[i], self.bytes[i + 1], self.bytes[i + 2], self.bytes[i + 3])
    }

    /// The whole picture: for each `y` a row, in it for each `x` the pixel
    /// shown there.
    pub fn render(&self) -> (rows: Vec<Vec<Pixel>>)
        requires
            self.wf(),
        ensures
            shows(rows@, self@),
    {
        let mut rows: Vec<Vec<Pixel>> = Vec::new();
        let mut y: usize = 0;
        while y < FRAME_HEIGHT
            invariant
                self.wf(),
                y <= FRAME_HEIGHT,
                rows@.len() == y,
                forall|j: int| 0 <= j < y ==> (#[trigger] rows@[j])@.len() == FRAME_WIDTH,
                forall|x: int, j: int|
                    0 <= x < FRAME_WIDTH && 0 <= j < y ==> #[trigger] rows@[j]@[x] == shown_pixel(
                        self@,
                        x,
                        j,
                    ),
            decreases FRAME_HEIGHT - y,
        {
            let mut row: Vec<Pixel> = Vec::new();
            let mut x: usize = 0;
            while x < FRAME_WIDTH
                invariant
                    self.wf(),
                    y < FRAME_HEIGHT,
                    x <= FRAME_WIDTH,
                    row@.len() == x,
                    forall|i: int| 0 <= i < x ==> #[trigger] row@[i] == shown_pixel(self@, i, y as int),
                decreases FRAME_WIDTH - x,
            {
                row.push(self.get_pixel(x, y));
                x += 1;
            }
            rows.push(row);
            y += 1;
        }
        rows
    }
}

/// An event that the player answers.
pub enum Msg {
    /// Play: from now on every tick moves one frame forward.
    Start,
    /// Pause.
    Stop,
    /// Move one frame forward.
    Forward,
    /// Move one frame backward.
    Backward,
    /// The periodic timer fired.
    OnTick,
    /// The download of the compressed stream ended, with its bytes or with
    /// the reason it failed.
    DataFetched(Result<Vec<u8>, Error>),
}

/// The player's state.
pub struct Model {
    active: bool,
    frames: Vec<Frame>,
    current_frame: Option<usize>,
}

/// What a player's state amounts to.
pub struct ModelView {
    /// Whether the player is playing.
    pub active: bool,
    /// The loaded frames, in stream order.
    pub frames: Seq<Seq<u8>>,
    /// The index of the frame on display, if there is one.
    pub current: Option<nat>,
}

impl ModelView {
    /// Every frame is complete, and the position, where there is one, is
    /// that of a loaded frame.
    pub open spec fn valid(self) -> bool {
        &&& forall|i: int|
            0 <= i < self.frames.len() ==> (#[trigger] self.frames[i]).len() == FRAME_SIZE
        &&& self.current matches Some(i) ==> i < self.frames.len()
    }

    /// The state before anything was loaded: no frames, no position, paused.
    pub open spec fn idle() -> ModelView {
        ModelView { active: false, frames: Seq::empty(), current: None }
    }

    /// The state after loading a decompressed stream: its frames replace
    /// the old ones, the position is the first frame if there is any.
    pub open spec fn loaded(self, pixels: Seq<u8>) -> ModelView {
        ModelView {
            active: self.active,
            frames: split_frames(pixels),
            current: if split_frames(pixels).len() > 0 {
                Some(0nat)
            } else {
                None
            },
        }
    }

    /// The state with the play flag set as given.
    pub open spec fn playing(self, active: bool) -> ModelView {
        ModelView { active, ..self }
    }

    /// One frame forward; at the last frame, or without a position, nothing
    /// changes.
    pub open spec fn stepped_forward(self) -> ModelView {
        match self.current {
            Some(i) if i + 1 < self.frames.len() => ModelView {
                current: Some((i + 1) as nat),
                ..self
            },
            _ => self,
        }
    }

    /// One frame backward; at the first frame, or without a position,
    /// nothing changes.
    pub open spec fn stepped_backward(self) -> ModelView {
        match self.current {
            Some(i) if i > 0 => ModelView { current: Some((i - 1) as nat), ..self },
            _ => self,
        }
    }

    /// A tick of the timer: a step forward while playing, nothing while
    /// paused.
    pub open spec fn ticked(self) -> ModelView {
        if self.active {
            self.stepped_forward()
        } else {
            self
        }
    }

    /// The state after a compressed stream arrived: loaded where the stream
    /// decompresses, unchanged where it does not.
    pub open spec fn received(self, data: Seq<u8>) -> ModelView {
        match gz_decoded(data) {
            Some(pixels) => self.loaded(pixels),
            None => self,
        }
    }

    /// The state after an event.
    pub open spec fn after(self, msg: Msg) -> ModelView {
        match msg {
            Msg::Start => self.playing(true),
            Msg::Stop => self.playing(false),
            Msg::Forward => self.stepped_forward(),
            Msg::Backward => self.stepped_backward(),
            Msg::OnTick => self.ticked(),
            Msg::DataFetched(Ok(data)) => self.received(data@),
            Msg::DataFetched(Err(_)) => self,
        }
    }
}

/// What an event makes the player report: the failure of a download or of
/// the decompression of what was downloaded, else nothing.
pub open spec fn report_of(msg: Msg) -> Option<Error> {
    match msg {
        Msg::DataFetched(Ok(data)) => if gz_decoded(data@) is None {
            Some(Error::Decompression)
        } else {
            None
        },
        Msg::DataFetched(Err(e)) => Some(e),
        _ => None,
    }
}

impl View for Model {
    type V = ModelView;

    closed spec fn view(&self) -> ModelView {
        ModelView {
            active: self.active,
            frames: Seq::new(self.frames@.len(), |i: int| self.frames@[i]@),
            current: match self.current_frame {
                Some(i) => Some(i as nat),
                None => None,
            },
        }
    }
}

impl Model {
    /// The state is valid.
    pub open spec fn wf(&self) -> bool {
        self@.valid()
    }

    /// A player with nothing loaded.
    pub fn new() -> (model: Model)
        ensures
            model@ == ModelView::idle(),
            model.wf(),
    {
        let model = Model { active: false, frames: Vec::new(), current_frame: None };
        assert(model@.frames =~= Seq::<Seq<u8>>::empty());
        model
    }

    /// Whether the player is playing.
    pub fn is_playing(&self) -> (active: bool)
        ensures
            active == self@.active,
    {
        self.active
    }

    /// Number of loaded frames.
    pub fn frame_count(&self) -> (n: usize)
        ensures
            n == self@.frames.len(),
    {
        self.frames.len()
    }

    /// Index of the frame on display, if there is one.
    pub fn current_index(&self) -> (i: Option<usize>)
        ensures
            match i {
                Some(i) => self@.current == Some(i as nat),
                None => self@.current is None,
            },
    {
        self.current_frame
    }

    /// The loaded frame with the given index, or `None` where there are not
    /// that many.
    pub fn frame(&self, i: usize) -> (found: Option<&Frame>)
        ensures
            match found {
                Some(f) => i < self@.frames.len() && f@ == self@.frames[i as int],
                None => i >= self@.frames.len(),
            },
    {
        if i < self.frames.len() {
            Some(&self.frames[i])
        } else {
            None
        }
    }

    /// Takes over the frames of a decompressed stream. Whatever was loaded
    /// before is dropped; the play flag stays.
    pub fn install(&mut self, pixels: &[u8])
        ensures
            final(self)@ == old(self)@.loaded(pixels@),
            final(self).wf(),
    {
        let count = pixels.len() / FRAME_SIZE;
        let mut frames: Vec<Frame> = Vec::new();
        let mut i: usize = 0;
        while i < count
            invariant
                count == pixels@.len() / FRAME_SIZE as nat,
                count * FRAME_SIZE <= pixels@.len() <= usize::MAX,
                i <= count,
                frames@.len() == i,
                forall|j: int|
                    0 <= j < i ==> (#[trigger] frames@[j])@ == pixels@.subrange(
                        j * FRAME_SIZE,
                        (j + 1) * FRAME_SIZE,
                    ),
            decreases count - i,
        {
            let chunk = slice_subrange(pixels, i * FRAME_SIZE, (i + 1) * FRAME_SIZE);
            frames.push(Frame { bytes: slice_to_vec(chunk) });
            i += 1;
        }
        self.current_frame = if count > 0 {
            Some(0)
        } else {
            None
        };
        self.frames = frames;
        assert(self@.frames =~= split_frames(pixels@));
    }

    /// Decompresses a stream and takes over its frames.
    ///
    /// Where the stream does not decompress, this fails with
    /// `Error::Decompression` and changes nothing: what was loaded before
    /// stays on display.
    pub fn load(&mut self, data: &[u8]) -> (r: Result<(), Error>)
        requires
            old(self).wf(),
        ensures
            final(self)@ == old(self)@.received(data@),
            final(self).wf(),
            r == if gz_decoded(data@) is Some {
                Ok::<(), Error>(())
            } else {
                Err::<(), Error>(Error::Decompression)
            },
    {
        match decompress(data) {
            Ok(pixels) => {
                self.install(pixels.as_slice());
                Ok(())
            },
            Err(e) => Err(e),
        }
    }

    /// Starts playing.
    pub fn start(&mut self)
        ensures
            final(self)@ == old(self)@.playing(true),
    {
        self.active = true;
    }

    /// Pauses.
    pub fn stop(&mut self)
        ensures
            final(self)@ == old(self)@.playing(false),
    {
        self.active = false;
    }

    /// Moves one frame forward, unless the last frame is on display or none
    /// is.
    pub fn step_forward(&mut self)
        requires
            old(self).wf(),
        ensures
            final(self)@ == old(self)@.stepped_forward(),
            final(self).wf(),
    {
        if let Some(i) = self.current_frame {
            if i != self.frames.len() - 1 {
                self.current_frame = Some(i + 1);
            }
        }
    }

    /// Moves one frame backward, unless the first frame is on display or
    /// none is.
    pub fn step_backward(&mut self)
        requires
            old(self).wf(),
        ensures
            final(self)@ == old(self)@.stepped_backward(),
            final(self).wf(),
    {
        if let Some(i) = self.current_frame {
            if i != 0 {
                self.current_frame = Some(i - 1);
            }
        }
    }

    /// Answers a tick of the timer: a step forward while playing.
    pub fn on_tick(&mut self)
        requires
            old(self).wf(),
        ensures
            final(self)@ == old(self)@.ticked(),
            final(self).wf(),
    {
        if self.active {
            self.step_forward();
        }
    }

    /// The picture of the frame on display, or `None` where there is none.
    pub fn render_current_frame(&self) -> (picture: Option<Vec<Vec<Pixel>>>)
        requires
            self.wf(),
        ensures
            match self@.current {
                Some(i) => picture matches Some(rows) && shows(rows@, self@.frames[i as int]),
                None => picture is None,
            },
    {
        match self.current_frame {
            Some(i) => {
                assert(self@.frames[i as int] == self.frames@[i as int]@);
                Some(self.frames[i].render())
            },
            None => None,
        }
    }
}

/// Applies one event to the player and returns what is to be reported.
///
/// A download that failed, or one that does not decompress, is reported and
/// leaves the player as it was.
pub fn update(msg: Msg, model: &mut Model) -> (report: Option<Error>)
    requires
        old(model).wf(),
    ensures
        final(model)@ == old(model)@.after(msg),
        final(model).wf(),
        report == report_of(msg),
{
    match msg {
        Msg::Start => {
            model.start();
            None
        },
        Msg::Stop => {
            model.stop();
            None
        },
        Msg::Forward => {
            model.step_forward();
            None
        },
        Msg::Backward => {
            model.step_backward();
            None
        },
        Msg::OnTick => {
            model.on_tick();
            None
        },
        Msg::DataFetched(Ok(data)) => match model.load(data.as_slice()) {
            Ok(()) => None,
            Err(e) => Some(e),
        },
        Msg::DataFetched(Err(e)) => Some(e),
    }
}

} // verus!
