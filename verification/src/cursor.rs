//! Cursor animations: choosing the images of a cursor, and which of its frames
//! to show at a given time.

use vstd::prelude::*;

use crate::decimal::{all_digits, digits_value, lemma_digits_value_grows};

verus! {

/// An image of an Xcursor file, as the `xcursor` crate parses it.
#[derive(Debug, PartialEq)]
pub struct CursorImage {
    /// The nominal size of the image.
    pub size: u32,
    /// The actual width of the image.
    pub width: u32,
    /// The actual height of the image.
    pub height: u32,
    /// The X coordinate of the hotspot pixel.
    pub xhot: u32,
    /// The Y coordinate of the hotspot pixel.
    pub yhot: u32,
    /// How long (in milliseconds) the image is shown, before the next one.
    pub delay: u32,
    /// The pixels' bytes, in RGBA order.
    pub pixels_rgba: Vec<u8>,
}

/// The value of a cursor image.
pub struct CursorImageView {
    pub size: u32,
    pub width: u32,
    pub height: u32,
    pub xhot: u32,
    pub yhot: u32,
    pub delay: u32,
    pub pixels_rgba: Seq<u8>,
}

impl View for CursorImage {
    type V = CursorImageView;

    open spec fn view(&self) -> CursorImageView {
        CursorImageView {
            size: self.size,
            width: self.width,
            height: self.height,
            xhot: self.xhot,
            yhot: self.yhot,
            delay: self.delay,
            pixels_rgba: self.pixels_rgba@,
        }
    }
}

impl Clone for CursorImage {
    fn clone(&self) -> (r: Self)
        ensures
            r@ == self@,
    {
        let pixels_rgba = self.pixels_rgba.clone();
        assert(pixels_rgba@ =~= self.pixels_rgba@);
        CursorImage {
            size: self.size,
            width: self.width,
            height: self.height,
            xhot: self.xhot,
            yhot: self.yhot,
            delay: self.delay,
            pixels_rgba,
        }
    }
}

/// The images that `xcursor::parser::parse_xcursor` finds in the bytes of an
/// Xcursor file, or nothing if they do not form one.
pub uninterp spec fn parsed_xcursor(content: Seq<u8>) -> Option<Seq<CursorImageView>>;

/// What `xcursor` checks of every image it parses.
pub open spec fn image_checked(i: CursorImageView) -> bool {
    &&& 0 < i.width <= 0x7fff
    &&& 0 < i.height <= 0x7fff
    &&& i.xhot <= i.width
    &&& i.yhot <= i.height
    &&& i.pixels_rgba.len() == 4 * i.width * i.height
}

/// `xcursor::parser::parse_xcursor`: the images of an Xcursor file, each with
/// its fields and RGBA pixels. Its result is named, as a function of the bytes
/// alone; what the parser checks of each image (non-zero dimensions of at most
/// 0x7fff, a hotspot inside the image, four bytes per pixel) is stated. Like
/// any allocation, the parser's may fail on a machine short of memory.
#[verifier::external_body]
pub(crate) fn parse_xcursor(content: &[u8]) -> (r: Option<Vec<CursorImage>>)
    ensures
        r matches Some(v) ==> parsed_xcursor(content@) == Some(v@.map_values(|i: CursorImage| i@)),
        r is None ==> parsed_xcursor(content@) is None,
        r matches Some(v) ==> forall|k: int| 0 <= k < v@.len() ==> image_checked(#[trigger] v@[k]@),
{
    xcursor::parser::parse_xcursor(content).map(
        |images| images.into_iter().map(|i| CursorImage {
            size: i.size,
            width: i.width,
            height: i.height,
            xhot: i.xhot,
            yhot: i.yhot,
            delay: i.delay,
            pixels_rgba: i.pixels_rgba,
        }).collect(),
    )
}

/// An image of a cursor, with the time it is shown for.
#[derive(Debug, Clone, Copy, PartialEq, Eq)]
pub struct CursorImageBuffer {
    delay: u32,
    xhot: u32,
    yhot: u32,
    width: u32,
    height: u32,
}

impl CursorImageBuffer {
    pub closed spec fn spec_delay(&self) -> u32 {
        self.delay
    }

    pub closed spec fn spec_dimensions(&self) -> (u32, u32) {
        (self.width, self.height)
    }

    pub closed spec fn spec_hotspot(&self) -> (u32, u32) {
        (self.xhot, self.yhot)
    }

    /// Construct a new CursorImageBuffer for an image
    pub fn new(image: &CursorImage) -> (b: CursorImageBuffer)
        ensures
            b.spec_delay() == image.delay,
            b.spec_dimensions() == (image.width, image.height),
            b.spec_hotspot() == (image.xhot, image.yhot),
    {
        CursorImageBuffer {
            delay: image.delay,
            xhot: image.xhot,
            yhot: image.yhot,
            width: image.width,
            height: image.height,
        }
    }

    /// Dimensions of this image
    pub fn dimensions(&self) -> (r: (u32, u32))
        ensures
            r == self.spec_dimensions(),
    {
        (self.width, self.height)
    }

    /// Location of the pointer hotspot in this image
    pub fn hotspot(&self) -> (r: (u32, u32))
        ensures
            r == self.spec_hotspot(),
    {
        (self.xhot, self.yhot)
    }

    /// Time (in milliseconds) for which this image should be displayed
    pub fn delay(&self) -> (r: u32)
        ensures
            r == self.spec_delay(),
    {
        self.delay
    }
}

/// Which frame to show, and for how long.
///
/// This struct is output by `Cursor::frame_and_duration`
#[derive(Debug, Clone, PartialEq, Eq)]
pub struct FrameAndDuration {
    /// The index of the frame which should be shown.
    pub frame_index: usize,
    /// The duration that the frame should be shown for (in milliseconds).
    pub frame_duration: u32,
}

/// Distance between the nominal size asked for and an image's, as the
/// difference of the two taken as `i32`.
pub open spec fn size_distance(size: u32, image_size: u32) -> int {
    let d = (size as i32) as int - (image_size as i32) as int;
    if d < 0 {
        -d
    } else {
        d
    }
}

/// The sizes can be compared without overflow of `i32` arithmetic.
pub open spec fn distance_computable(size: u32, image_size: u32) -> bool {
    let d = (size as i32) as int - (image_size as i32) as int;
    i32::MIN < d <= i32::MAX
}

/// Index of the first image whose size is nearest to `size`.
pub open spec fn nearest_index(size: u32, images: Seq<CursorImageView>) -> int
    decreases images.len(),
{
    if images.len() <= 1 {
        0
    } else {
        let rest = nearest_index(size, images.drop_last());
        if size_distance(size, images.last().size) < size_distance(
            size,
            images[rest].size,
        ) {
            images.len() - 1
        } else {
            rest
        }
    }
}

/// The images with the dimensions of the nearest one, in order.
pub open spec fn nearest_images_of(size: u32, images: Seq<CursorImageView>) -> Seq<CursorImageView> {
    let n = images[nearest_index(size, images)];
    images.filter(|i: CursorImageView| i.width == n.width && i.height == n.height)
}

/// The total time of a list of frames.
pub open spec fn total_delay(delays: Seq<u32>) -> int
    decreases delays.len(),
{
    if delays.len() == 0 {
        0
    } else {
        total_delay(delays.drop_last()) + delays.last()
    }
}

/// The frame shown `m` milliseconds after frame `i` started, and how many
/// milliseconds remain until the next frame: frames are walked from `i`,
/// each taking its delay.
pub open spec fn frame_at(delays: Seq<u32>, i: int, m: int) -> (int, int)
    decreases delays.len() - i,
{
    if i < 0 || i >= delays.len() {
        (0, m)
    } else if m < delays[i] {
        (i, delays[i] - m)
    } else {
        frame_at(delays, i + 1, m - delays[i])
    }
}

/// The frames show the images, one for one and in order: same delay,
/// dimensions and hotspot.
pub open spec fn shows_images(frames: Seq<CursorImageBuffer>, imgs: Seq<CursorImageView>) -> bool {
    &&& frames.len() == imgs.len()
    &&& forall|k: int|
        0 <= k < frames.len() ==> {
            let img = imgs[k];
            &&& (#[trigger] frames[k]).spec_delay() == img.delay
            &&& frames[k].spec_dimensions() == (img.width, img.height)
            &&& frames[k].spec_hotspot() == (img.xhot, img.yhot)
        }
}

/// A cursor from a theme. Can contain several images if animated.
#[derive(Debug, Clone)]
pub struct Cursor {
    name: String,
    images: Vec<CursorImageBuffer>,
    total_duration: u32,
}

impl Cursor {
    pub closed spec fn spec_name(&self) -> Seq<char> {
        self.name@
    }

    /// The delays of its frames, in order.
    pub closed spec fn delays(&self) -> Seq<u32> {
        self.images@.map_values(|b: CursorImageBuffer| b.delay)
    }

    /// Its frames, in order.
    pub closed spec fn frames(&self) -> Seq<CursorImageBuffer> {
        self.images@
    }

    /// The total duration of its animation.
    pub closed spec fn spec_total_duration(&self) -> u32 {
        self.total_duration
    }

    /// Well-formed: the total duration is the sum of the delays.
    pub open spec fn wf(&self) -> bool {
        self.spec_total_duration() == total_delay(self.delays())
    }

    /// Construct a new Cursor from the images of an Xcursor file: the images
    /// of the dimensions of the first image whose nominal size is nearest to
    /// `size`, in order.
    pub fn new(name: &str, images: &[CursorImage], size: u32) -> (c: Cursor)
        requires
            images@.len() > 0,
            forall|k: int|
                0 <= k < images@.len() ==> distance_computable(size, #[trigger] images@[k].size),
            total_delay(
                nearest_images_of(size, images@.map_values(|i: CursorImage| i@)).map_values(
                    |i: CursorImageView| i.delay,
                ),
            ) <= u32::MAX,
        ensures
            c.wf(),
            c.spec_name() == name@,
            shows_images(c.frames(), nearest_images_of(size, images@.map_values(|i: CursorImage| i@))),
    {
        let ghost views = images@.map_values(|i: CursorImage| i@);
        let nearest = Cursor::nearest_images(size, images);
        let ghost chosen = nearest_images_of(size, views);
        let mut total_duration: u32 = 0;
        let mut buffers: Vec<CursorImageBuffer> = Vec::new();
        let n = nearest.len();
        let mut i: usize = 0;
        while i < n
            invariant
                0 <= i <= n,
                n == nearest@.len(),
                chosen.len() == n,
                forall|k: int| 0 <= k < n ==> (#[trigger] nearest@[k])@ == chosen[k],
                total_delay(chosen.map_values(|v: CursorImageView| v.delay)) <= u32::MAX,
                buffers@.len() == i,
                total_duration == total_delay(
                    buffers@.map_values(|b: CursorImageBuffer| b.delay),
                ),
                forall|k: int|
                    0 <= k < i ==> {
                        &&& (#[trigger] buffers@[k]).delay == chosen[k].delay
                        &&& buffers@[k].width == chosen[k].width
                        &&& buffers@[k].height == chosen[k].height
                        &&& buffers@[k].xhot == chosen[k].xhot
                        &&& buffers@[k].yhot == chosen[k].yhot
                    },
            decreases n - i,
        {
            let buffer = CursorImageBuffer::new(&nearest[i]);
            proof {
                let ds = chosen.map_values(|v: CursorImageView| v.delay);
                lemma_total_delay_prefix(ds, i as int + 1);
                assert(buffers@.map_values(|b: CursorImageBuffer| b.delay) =~= ds.take(i as int));
                assert(ds.take(i as int + 1).drop_last() =~= ds.take(i as int));
            }
            total_duration = total_duration + buffer.delay;
            let ghost before = buffers@;
            buffers.push(buffer);
            proof {
                assert(buffers@.map_values(|b: CursorImageBuffer| b.delay).drop_last()
                    =~= before.map_values(|b: CursorImageBuffer| b.delay));
            }
            i += 1;
        }
        Cursor { total_duration, name: name.to_owned(), images: buffers }
    }

    /// The images of the dimensions of the first image whose nominal size is
    /// nearest to `size`, in order.
    fn nearest_images(size: u32, images: &[CursorImage]) -> (r: Vec<CursorImage>)
        requires
            images@.len() > 0,
            forall|k: int|
                0 <= k < images@.len() ==> distance_computable(size, #[trigger] images@[k].size),
        ensures
            r@.len() == nearest_images_of(size, images@.map_values(|i: CursorImage| i@)).len(),
            forall|k: int|
                0 <= k < r@.len() ==> (#[trigger] r@[k])@ == nearest_images_of(
                    size,
                    images@.map_values(|i: CursorImage| i@),
                )[k],
    {
        let ghost views = images@.map_values(|i: CursorImage| i@);
        // Follow the nominal size of the cursor to choose the nearest
        let mut best: usize = 0;
        let mut best_dist: i32 = Self::distance(size, images[0].size);
        let mut i: usize = 1;
        while i < images.len()
            invariant
                1 <= i <= images@.len(),
                views == images@.map_values(|i: CursorImage| i@),
                forall|k: int|
                    0 <= k < images@.len() ==> distance_computable(
                        size,
                        #[trigger] images@[k].size,
                    ),
                best == nearest_index(size, views.take(i as int)),
                best < i,
                best_dist == size_distance(size, images@[best as int].size),
            decreases images@.len() - i,
        {
            let d = Self::distance(size, images[i].size);
            assert(views.take(i as int + 1).drop_last() =~= views.take(i as int));
            assert(views.take(i as int + 1).last() == views[i as int]);
            assert(views.take(i as int)[best as int] == views[best as int]);
            if d < best_dist {
                best = i;
                best_dist = d;
            }
            i += 1;
        }
        assert(views.take(images@.len() as int) =~= views);
        let width = images[best].width;
        let height = images[best].height;
        let mut r: Vec<CursorImage> = Vec::new();
        let mut j: usize = 0;
        let ghost pred = |v: CursorImageView| v.width == width && v.height == height;
        while j < images.len()
            invariant
                0 <= j <= images@.len(),
                views == images@.map_values(|i: CursorImage| i@),
                pred == (|v: CursorImageView| v.width == width && v.height == height),
                r@.len() == views.take(j as int).filter(pred).len(),
                forall|k: int| 0 <= k < r@.len() ==> (#[trigger] r@[k])@ == views.take(j as int).filter(pred)[k],
            decreases images@.len() - j,
        {
            let ghost before = r@;
            assert(views.take(j as int + 1).drop_last() =~= views.take(j as int));
            reveal_with_fuel(Seq::filter, 1);
            let ghost prev = views.take(j as int).filter(pred);
            assert(views.take(j as int + 1).last() == views[j as int]);
            assert(views[j as int] == images@[j as int]@);
            if images[j].width == width && images[j].height == height {
                let c = images[j].clone();
                r.push(c);
                assert(views.take(j as int + 1).filter(pred) == prev.push(views[j as int]));
            } else {
                assert(views.take(j as int + 1).filter(pred) == prev);
            }
            assert(forall|k: int| 0 <= k < r@.len() ==> (#[trigger] r@[k])@ == views.take(j as int + 1).filter(pred)[k]);
            j += 1;
        }
        assert(views.take(images@.len() as int) =~= views);
        r
    }

    /// Distance between two nominal sizes.
    fn distance(size: u32, image_size: u32) -> (d: i32)
        requires
            distance_computable(size, image_size),
        ensures
            d == size_distance(size, image_size),
    {
        let a = #[verifier::truncate] (size as i32);
        let b = #[verifier::truncate] (image_size as i32);
        let diff = a - b;
        if diff < 0 {
            -diff
        } else {
            diff
        }
    }

    /// Given a time, calculate which frame to show, and how much time remains until the next frame.
    ///
    /// Time will wrap, so if for instance the cursor has an animation during 100ms,
    /// then calling this function with 5ms and 105ms as input gives the same output.
    pub fn frame_and_duration(&self, millis: u32) -> (r: FrameAndDuration)
        requires
            self.wf(),
            self.spec_total_duration() > 0,
        ensures
            (r.frame_index as int, r.frame_duration as int) == frame_at(
                self.delays(),
                0,
                (millis % self.spec_total_duration()) as int,
            ),
    {
        let mut millis = millis % self.total_duration;
        let mut res: usize = 0;
        let n = self.images.len();
        let mut i: usize = 0;
        let ghost ds = self.delays();
        let ghost m0 = millis as int;
        while i < n
            invariant_except_break
                0 <= i <= n,
                res == 0,
                n == ds.len(),
                ds == self.delays(),
                frame_at(ds, 0, m0) == frame_at(ds, i as int, millis as int),
            ensures
                frame_at(ds, 0, m0) == (res as int, millis as int),
            decreases n - i,
        {
            let delay = self.images[i].delay;
            if millis < delay {
                res = i;
                millis = delay - millis;
                break;
            }
            millis = millis - delay;
            i += 1;
        }
        FrameAndDuration { frame_index: res, frame_duration: millis }
    }

    /// The frame at `index`, in the order of the animation.
    pub fn frame(&self, index: usize) -> (r: &CursorImageBuffer)
        requires
            index < self.frames().len(),
        ensures
            *r == self.frames()[index as int],
    {
        &self.images[index]
    }

    /// The metadata of a frame of the animation: `(width, height,
    /// hotspot_x, hotspot_y, delay)`; `None` if the frame is out of bounds.
    pub fn frame_info(&self, frame: usize) -> (r: Option<(u32, u32, u32, u32, u32)>)
        ensures
            frame >= self.frames().len() ==> r is None,
            frame < self.frames().len() ==> ({
                let b = self.frames()[frame as int];
                r == Some(
                    (
                        b.spec_dimensions().0,
                        b.spec_dimensions().1,
                        b.spec_hotspot().0,
                        b.spec_hotspot().1,
                        b.spec_delay(),
                    ),
                )
            }),
    {
        if frame >= self.images.len() {
            None
        } else {
            let image = &self.images[frame];
            Some((image.width, image.height, image.xhot, image.yhot, image.delay))
        }
    }

    /// The name of this cursor.
    pub fn name(&self) -> (r: &str)
        ensures
            r@ == self.spec_name(),
    {
        self.name.as_str()
    }

    /// Total number of images forming this cursor animation
    pub fn image_count(&self) -> (r: usize)
        ensures
            r == self.frames().len(),
    {
        self.images.len()
    }
}

/// Whether a cursor can be built at `size` from `images`: there is an
/// image, sizes compare without overflow, and the animation's total time fits.
pub open spec fn cursor_buildable(size: u32, images: Seq<CursorImageView>) -> bool {
    &&& images.len() > 0
    &&& forall|k: int| 0 <= k < images.len() ==> distance_computable(size, #[trigger] images[k].size)
    &&& total_delay(nearest_images_of(size, images).map_values(|i: CursorImageView| i.delay))
        <= u32::MAX
}

/// The `u32` that the bytes write in decimal, with an optional leading `+`,
/// as `u32::from_str` reads it: at least one digit, nothing but digits, and a
/// value that fits.
pub open spec fn decimal_u32(b: Seq<u8>) -> Option<u32> {
    let d = if b.len() > 0 && b[0] == 43 {
        b.drop_first()
    } else {
        b
    };
    if d.len() > 0 && all_digits(d) && digits_value(d) <= u32::MAX {
        Some(digits_value(d) as u32)
    } else {
        None
    }
}

/// Reads a cursor size as `u32::from_str` does: decimal digits with an
/// optional leading `+`; nothing if the text is no such number or does not
/// fit.
pub fn parse_size(text: &str) -> (r: Option<u32>)
    ensures
        r == decimal_u32(vstd::utf8::encode_utf8(text@)),
{
    let b = text.as_bytes();
    let start: usize = if b.len() > 0 && b[0] == 43 {
        1
    } else {
        0
    };
    let ghost d = if b@.len() > 0 && b@[0] == 43 {
        b@.drop_first()
    } else {
        b@
    };
    assert(d =~= b@.skip(start as int));
    if start >= b.len() {
        return None;
    }
    let mut acc: u64 = 0;
    let mut i: usize = start;
    while i < b.len()
        invariant
            start <= i <= b@.len(),
            b@ == vstd::utf8::encode_utf8(text@),
            d == (if b@.len() > 0 && b@[0] == 43 {
                b@.drop_first()
            } else {
                b@
            }),
            d == b@.skip(start as int),
            forall|j: int| 0 <= j < i - start ==> 48 <= #[trigger] d[j] <= 57,
            acc == digits_value(d.take(i - start)),
            acc <= u32::MAX,
        decreases b@.len() - i,
    {
        let c = b[i];
        if c < 48 || c > 57 {
            assert(d[i - start] == c);
            return None;
        }
        let ghost k = (i - start) as int;
        assert(d.take(k + 1).drop_last() =~= d.take(k));
        assert(d.take(k + 1).last() == c);
        acc = acc * 10 + (c - 48) as u64;
        i += 1;
        if acc > u32::MAX as u64 {
            proof {
                assert(all_digits(d.take(k + 1))) by {
                    assert forall|j: int| 0 <= j < k + 1 implies 48 <= #[trigger] d.take(k + 1)[j]
                        <= 57 by {
                        assert(d.take(k + 1)[j] == d[j]);
                    }
                }
                if all_digits(d) {
                    lemma_digits_value_grows(d, k + 1);
                }
            }
            return None;
        }
    }
    assert(d.take(d.len() as int) =~= d);
    assert(all_digits(d));
    Some(acc as u32)
}

/// Represents a cursor theme: its name, the nominal size of its cursors, and
/// the cursors loaded so far.
#[derive(Debug)]
pub struct CursorTheme {
    name: String,
    cursors: Vec<Cursor>,
    size: u32,
}

/// The place of the first cursor named `name` among `cursors`, if any.
pub open spec fn first_named(cursors: Seq<Cursor>, name: Seq<char>) -> Option<int>
    decreases cursors.len(),
{
    if cursors.len() == 0 {
        None
    } else if cursors[0].spec_name() == name {
        Some(0)
    } else {
        match first_named(cursors.drop_first(), name) {
            Some(k) => Some(k + 1),
            None => None,
        }
    }
}

proof fn lemma_first_named(cursors: Seq<Cursor>, name: Seq<char>)
    ensures
        first_named(cursors, name) is None <==> forall|k: int|
            0 <= k < cursors.len() ==> (#[trigger] cursors[k]).spec_name() != name,
        first_named(cursors, name) matches Some(k) ==> 0 <= k < cursors.len()
            && cursors[k].spec_name() == name && forall|j: int|
            0 <= j < k ==> (#[trigger] cursors[j]).spec_name() != name,
    decreases cursors.len(),
{
    if cursors.len() > 0 {
        let rest = cursors.drop_first();
        lemma_first_named(rest, name);
        assert(forall|k: int| 0 < k < cursors.len() ==> #[trigger] cursors[k] == rest[k - 1]);
        if cursors[0].spec_name() != name {
            if first_named(rest, name) is None {
                assert forall|k: int| 0 <= k < cursors.len() implies (#[trigger] cursors[k]).spec_name()
                    != name by {
                    if k > 0 {
                        assert(rest[k - 1].spec_name() != name);
                    }
                }
            } else {
                let k = first_named(rest, name).unwrap();
                assert(cursors[k + 1] == rest[k]);
            }
        }
    }
}

impl CursorTheme {
    pub closed spec fn spec_name(&self) -> Seq<char> {
        self.name@
    }

    pub closed spec fn spec_size(&self) -> u32 {
        self.size
    }

    /// The cursors loaded so far, in order of loading.
    pub closed spec fn loaded(&self) -> Seq<Cursor> {
        self.cursors@
    }

    /// A theme of the given name and cursor size, no cursor loaded yet.
    pub fn load_from_name(name: &str, size: u32) -> (t: CursorTheme)
        ensures
            t.spec_name() == name@,
            t.spec_size() == size,
            t.loaded().len() == 0,
    {
        CursorTheme { name: name.to_owned(), cursors: Vec::new(), size }
    }

    /// A theme named by `env_theme` if it is given, else by `name`; with
    /// cursors of the size that `env_size` writes in decimal if it does,
    /// else of `size`.
    pub fn load_or(name: &str, size: u32, env_theme: Option<String>, env_size: Option<String>) -> (t:
        CursorTheme)
        ensures
            t.spec_name() == (match env_theme {
                Some(n) => n@,
                None => name@,
            }),
            t.spec_size() == (match env_size {
                Some(s) => match decimal_u32(vstd::utf8::encode_utf8(s@)) {
                    Some(v) => v,
                    None => size,
                },
                None => size,
            }),
            t.loaded().len() == 0,
    {
        let theme_name = match env_theme {
            Some(n) => n,
            None => name.to_owned(),
        };
        let mut size = size;
        if let Some(var) = env_size {
            if let Some(v) = parse_size(var.as_str()) {
                size = v;
            }
        }
        CursorTheme::load_from_name(theme_name.as_str(), size)
    }

    /// Name of the theme
    pub fn name(&self) -> (r: &str)
        ensures
            r@ == self.spec_name(),
    {
        self.name.as_str()
    }

    /// Nominal size of its cursors
    pub fn size(&self) -> (r: u32)
        ensures
            r == self.spec_size(),
    {
        self.size
    }

    /// The loaded cursor of the given name, the first one if several.
    pub fn find_cursor(&self, name: &str) -> (r: Option<&Cursor>)
        ensures
            r is None <==> forall|k: int|
                0 <= k < self.loaded().len() ==> (#[trigger] self.loaded()[k]).spec_name() != name@,
            r matches Some(c) ==> exists|k: int|
                0 <= k < self.loaded().len() && *c == self.loaded()[k] && c.spec_name() == name@
                    && forall|j: int|
                    0 <= j < k ==> (#[trigger] self.loaded()[j]).spec_name() != name@,
            r is None <==> first_named(self.loaded(), name@) is None,
            r matches Some(c) ==> first_named(self.loaded(), name@) matches Some(k) && *c
                == self.loaded()[k],
    {
        let wanted = name.to_owned();
        let n = self.cursors.len();
        let mut i: usize = 0;
        while i < n
            invariant
                0 <= i <= n,
                n == self.cursors@.len(),
                wanted@ == name@,
                forall|j: int| 0 <= j < i ==> (#[trigger] self.cursors@[j]).name@ != name@,
            decreases n - i,
        {
            if self.cursors[i].name == wanted {
                assert(self.loaded()[i as int] == self.cursors@[i as int]);
                assert(self.loaded()[i as int].spec_name() == name@);
                proof {
                    lemma_first_named(self.loaded(), name@);
                    assert(forall|j: int| 0 <= j < i ==> self.loaded()[j] == self.cursors@[j]);
                }
                return Some(&self.cursors[i]);
            }
            i += 1;
        }
        assert(forall|k: int|
            0 <= k < self.loaded().len() ==> (#[trigger] self.loaded()[k]).spec_name() != name@) by {
            assert(forall|k: int| 0 <= k < n ==> self.loaded()[k] == self.cursors@[k]);
        }
        proof {
            lemma_first_named(self.loaded(), name@);
        }
        None
    }

    /// Load a cursor from the bytes of its Xcursor file and keep it in the
    /// theme; returns it. Nothing is loaded when the bytes are no Xcursor
    /// file, or hold no image a cursor can be built from (see
    /// `cursor_buildable`).
    pub fn load_cursor(&mut self, name: &str, content: &[u8]) -> (r: Option<&Cursor>)
        ensures
            r is Some <==> (parsed_xcursor(content@) matches Some(imgs) && cursor_buildable(
                old(self).spec_size(),
                imgs,
            )),
            r is None ==> final(self).loaded() == old(self).loaded(),
            r matches Some(c) ==> final(self).loaded() == old(self).loaded().push(*c) && c.wf()
                && c.spec_name() == name@ && (parsed_xcursor(content@) matches Some(imgs)
                && shows_images(c.frames(), nearest_images_of(old(self).spec_size(), imgs))),
            final(self).spec_name() == old(self).spec_name(),
            final(self).spec_size() == old(self).spec_size(),
    {
        let images = match parse_xcursor(content) {
            Some(images) => images,
            None => {
                return None;
            },
        };
        let ghost views = images@.map_values(|i: CursorImage| i@);
        let size = self.size;
        if images.len() == 0 {
            return None;
        }
        let mut k: usize = 0;
        while k < images.len()
            invariant
                0 <= k <= images@.len(),
                views == images@.map_values(|i: CursorImage| i@),
                parsed_xcursor(content@) == Some(views),
                size == old(self).spec_size(),
                forall|j: int| 0 <= j < k ==> distance_computable(size, #[trigger] images@[j].size),
            decreases images@.len() - k,
        {
            let a = (#[verifier::truncate] (images[k].size as i32)) as i64;
            let b = (#[verifier::truncate] (size as i32)) as i64;
            assert(views[k as int].size == images@[k as int].size);
            let d = b - a;
            if d <= i32::MIN as i64 || d > i32::MAX as i64 {
                assert(!distance_computable(size, views[k as int].size));
                return None;
            }
            k += 1;
        }
        let nearest = Cursor::nearest_images(size, images.as_slice());
        let ghost chosen = nearest_images_of(size, views);
        let ghost ds = chosen.map_values(|i: CursorImageView| i.delay);
        let mut total: u64 = 0;
        let mut j: usize = 0;
        while j < nearest.len()
            invariant
                0 <= j <= nearest@.len(),
                nearest@.len() == chosen.len(),
                forall|m: int| 0 <= m < nearest@.len() ==> (#[trigger] nearest@[m])@ == chosen[m],
                ds == chosen.map_values(|i: CursorImageView| i.delay),
                chosen == nearest_images_of(size, views),
                parsed_xcursor(content@) == Some(views),
                size == old(self).spec_size(),
                total == total_delay(ds.take(j as int)),
                total <= u32::MAX,
            decreases nearest@.len() - j,
        {
            assert(ds.take(j as int + 1).drop_last() =~= ds.take(j as int));
            assert(ds.take(j as int + 1).last() == nearest@[j as int].delay);
            total = total + nearest[j].delay as u64;
            if total > u32::MAX as u64 {
                proof {
                    lemma_total_delay_prefix(ds, j as int + 1);
                }
                return None;
            }
            j += 1;
        }
        assert(ds.take(nearest@.len() as int) =~= ds);
        let cursor = Cursor::new(name, images.as_slice(), size);
        self.cursors.push(cursor);
        let last = self.cursors.len() - 1;
        Some(&self.cursors[last])
    }

    /// Get a cursor from its name: the one loaded before under that name if
    /// there is one, without reading anything; else the one that the bytes
    /// of its file give (`read_file` fetches them), which the theme then
    /// keeps. `None` if the file cannot be read or holds no usable cursor.
    pub fn get_cursor<F: FnOnce() -> Option<Vec<u8>>>(&mut self, name: &str, read_file: F) -> (r:
        Option<&Cursor>)
        requires
            read_file.requires(()),
        ensures
            final(self).spec_name() == old(self).spec_name(),
            final(self).spec_size() == old(self).spec_size(),
            first_named(old(self).loaded(), name@) matches Some(k) ==> (final(self).loaded() == old(
                self,
            ).loaded() && (r matches Some(c) && *c == old(self).loaded()[k])),
            first_named(old(self).loaded(), name@) is None ==> exists|bytes: Option<Vec<u8>>|
                #[trigger] read_file.ensures((), bytes) && match bytes {
                    None => r is None && final(self).loaded() == old(self).loaded(),
                    Some(b) => {
                        &&& r is Some <==> (parsed_xcursor(b@) matches Some(imgs) && cursor_buildable(
                            old(self).spec_size(),
                            imgs,
                        ))
                        &&& r is None ==> final(self).loaded() == old(self).loaded()
                        &&& r matches Some(c) ==> final(self).loaded() == old(self).loaded().push(*c)
                            && c.wf() && c.spec_name() == name@ && (parsed_xcursor(b@) matches Some(
                            imgs,
                        ) && shows_images(c.frames(), nearest_images_of(old(self).spec_size(), imgs)))
                    },
                },
    {
        if self.find_cursor(name).is_some() {
            return self.find_cursor(name);
        }
        let bytes = read_file();
        match bytes {
            Some(b) => self.load_cursor(name, b.as_slice()),
            None => None,
        }
    }
}

/// A lookup finds what was loaded: once a cursor named `name` is loaded into
/// a theme that held none of that name, a lookup of `name` gives that
/// cursor; and loading one more cursor never changes what a lookup of a name
/// already held gives. So a second request for a cursor gives the one that
/// the first request found or loaded, and loads nothing.
pub proof fn law_loaded_cursor_is_found(loaded: Seq<Cursor>, c: Cursor, name: Seq<char>)
    requires
        c.spec_name() == name,
    ensures
        first_named(loaded, name) is None ==> first_named(loaded.push(c), name) == Some(
            loaded.len() as int,
        ),
        first_named(loaded, name) matches Some(k) ==> first_named(loaded.push(c), name) == Some(k),
{
    let after = loaded.push(c);
    lemma_first_named(loaded, name);
    lemma_first_named(after, name);
    assert(after[loaded.len() as int] == c);
    assert(forall|j: int| 0 <= j < loaded.len() ==> #[trigger] after[j] == loaded[j]);
    if first_named(loaded, name) is None {
        if first_named(after, name) is Some {
            let k = first_named(after, name).unwrap();
            if k < loaded.len() {
                assert(loaded[k].spec_name() == name);
            }
        }
    } else {
        let k = first_named(loaded, name).unwrap();
        assert(after[k] == loaded[k]);
        if first_named(after, name) is Some {
            let k2 = first_named(after, name).unwrap();
            if k2 < k {
                assert(after[k2] == loaded[k2]);
            }
        }
    }
}

proof fn lemma_total_delay_prefix(ds: Seq<u32>, k: int)
    requires
        0 <= k <= ds.len(),
    ensures
        total_delay(ds.take(k)) <= total_delay(ds),
    decreases ds.len() - k,
{
    if k < ds.len() {
        lemma_total_delay_prefix(ds, k + 1);
        assert(ds.take(k + 1).drop_last() =~= ds.take(k));
    } else {
        assert(ds.take(k) =~= ds);
    }
}

proof fn lemma_total_delay_front(ds: Seq<u32>)
    requires
        ds.len() > 0,
    ensures
        total_delay(ds) == ds[0] + total_delay(ds.drop_first()),
    decreases ds.len(),
{
    if ds.len() > 1 {
        lemma_total_delay_front(ds.drop_last());
        assert(ds.drop_last().drop_first() =~= ds.drop_first().drop_last());
        assert(ds.drop_first().last() == ds.last());
        assert(ds.drop_last()[0] == ds[0]);
        assert(total_delay(ds.drop_first()) == total_delay(ds.drop_first().drop_last())
            + ds.drop_first().last());
    } else {
        assert(ds.drop_last().len() == 0);
        assert(ds.drop_first().len() == 0);
        assert(total_delay(ds.drop_last()) == 0);
        assert(total_delay(ds.drop_first()) == 0);
        assert(ds.last() == ds[0]);
    }
}

proof fn lemma_frame_in_range(ds: Seq<u32>, i: int, m: int)
    requires
        0 <= i <= ds.len(),
        0 <= m < total_delay(ds.subrange(i, ds.len() as int)),
    ensures
        ({
            let (f, r) = frame_at(ds, i, m);
            &&& i <= f < ds.len()
            &&& 0 < r <= ds[f]
        }),
    decreases ds.len() - i,
{
    let rest = ds.subrange(i, ds.len() as int);
    if i == ds.len() {
        assert(rest.len() == 0);
    } else {
        lemma_total_delay_front(rest);
        assert(rest.drop_first() =~= ds.subrange(i + 1, ds.len() as int));
        if m >= ds[i] {
            lemma_frame_in_range(ds, i + 1, m - ds[i]);
        }
    }
}

/// Time wraps: two times that differ by the total duration of the animation
/// show the same frame for the same remaining time.
pub proof fn law_time_wraps(c: Cursor, a: u32, b: u32)
    requires
        c.wf(),
        c.spec_total_duration() > 0,
        b == a + c.spec_total_duration(),
    ensures
        frame_at(c.delays(), 0, (a % c.spec_total_duration()) as int) == frame_at(
            c.delays(),
            0,
            (b % c.spec_total_duration()) as int,
        ),
{
    vstd::arithmetic::div_mod::lemma_mod_add_multiples_vanish(a as int, c.spec_total_duration() as int);
}

/// The frame shown is one of the cursor's frames, and the time left until
/// the next frame is positive and at most that frame's delay.
pub proof fn law_frame_in_range(c: Cursor, millis: u32)
    requires
        c.wf(),
        c.spec_total_duration() > 0,
    ensures
        ({
            let (f, r) = frame_at(c.delays(), 0, (millis % c.spec_total_duration()) as int);
            &&& 0 <= f < c.frames().len()
            &&& 0 < r <= c.frames()[f].spec_delay()
        }),
{
    assert(c.delays().subrange(0, c.delays().len() as int) =~= c.delays());
    lemma_frame_in_range(c.delays(), 0, (millis % c.spec_total_duration()) as int);
}

} // verus!
