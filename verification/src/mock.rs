//! A target that records what is asked of it, for testing projects without a real backend.
use std::collections::hash_map::DefaultHasher;
use std::hash::Hasher;

use vstd::prelude::*;
use crate::target::SkyliteTarget;
use vstd::std_specs::hash::DefaultHasherAdditionalSpecFns;

verus! {

/// A call made on a `MockTarget`.
#[derive(Debug, PartialEq)]
pub enum Call {
    DrawSub {
        // Hash of the actual data. Storing the actual data here
        // would use up too much memory.
        data: u64,
        x: i16,
        y: i16,
        src_x: i16,
        src_y: i16,
        src_w: u16,
        src_h: u16,
        flip_h: bool,
        flip_v: bool,
        rotate: bool,
    },
    DrawTile {
        data: u64,
        layer: u8,
        tile_x_idx: i16,
        tile_y_idx: i16,
        src_x: i16,
        src_y: i16,
        flip_h: bool,
        flip_v: bool,
        rotate: bool,
    },
    WriteStorage { offset: usize, data: Vec<u8> },
    Log { msg: String },
}

/// A `Call` with its byte vector and its message taken by their contents.
pub enum CallView {
    DrawSub {
        data: u64,
        x: i16,
        y: i16,
        src_x: i16,
        src_y: i16,
        src_w: u16,
        src_h: u16,
        flip_h: bool,
        flip_v: bool,
        rotate: bool,
    },
    DrawTile {
        data: u64,
        layer: u8,
        tile_x_idx: i16,
        tile_y_idx: i16,
        src_x: i16,
        src_y: i16,
        flip_h: bool,
        flip_v: bool,
        rotate: bool,
    },
    WriteStorage { offset: usize, data: Seq<u8> },
    Log { msg: Seq<char> },
}

impl View for Call {
    type V = CallView;

    open spec fn view(&self) -> CallView {
        match self {
            Call::DrawSub { data, x, y, src_x, src_y, src_w, src_h, flip_h, flip_v, rotate } => {
                CallView::DrawSub {
                    data: *data,
                    x: *x,
                    y: *y,
                    src_x: *src_x,
                    src_y: *src_y,
                    src_w: *src_w,
                    src_h: *src_h,
                    flip_h: *flip_h,
                    flip_v: *flip_v,
                    rotate: *rotate,
                }
            },
            Call::DrawTile {
                data,
                layer,
                tile_x_idx,
                tile_y_idx,
                src_x,
                src_y,
                flip_h,
                flip_v,
                rotate,
            } => CallView::DrawTile {
                data: *data,
                layer: *layer,
                tile_x_idx: *tile_x_idx,
                tile_y_idx: *tile_y_idx,
                src_x: *src_x,
                src_y: *src_y,
                flip_h: *flip_h,
                flip_v: *flip_v,
                rotate: *rotate,
            },
            Call::WriteStorage { offset, data } => CallView::WriteStorage {
                offset: *offset,
                data: data@,
            },
            Call::Log { msg } => CallView::Log { msg: msg@ },
        }
    }
}

impl Clone for Call {
    fn clone(&self) -> (out: Self)
        ensures
            out@ == self@,
    {
        match self {
            Call::DrawSub { data, x, y, src_x, src_y, src_w, src_h, flip_h, flip_v, rotate } => {
                Call::DrawSub {
                    data: *data,
                    x: *x,
                    y: *y,
                    src_x: *src_x,
                    src_y: *src_y,
                    src_w: *src_w,
                    src_h: *src_h,
                    flip_h: *flip_h,
                    flip_v: *flip_v,
                    rotate: *rotate,
                }
            },
            Call::DrawTile {
                data,
                layer,
                tile_x_idx,
                tile_y_idx,
                src_x,
                src_y,
                flip_h,
                flip_v,
                rotate,
            } => Call::DrawTile {
                data: *data,
                layer: *layer,
                tile_x_idx: *tile_x_idx,
                tile_y_idx: *tile_y_idx,
                src_x: *src_x,
                src_y: *src_y,
                flip_h: *flip_h,
                flip_v: *flip_v,
                rotate: *rotate,
            },
            Call::WriteStorage { offset, data } => {
                let copy = vstd::slice::slice_to_vec(data.as_slice());
                Call::WriteStorage { offset: *offset, data: copy }
            },
            Call::Log { msg } => Call::Log { msg: msg.clone() },
        }
    }
}

/// Where the pixel at (`x`, `y`) of a `w` by `h` region lands after flipping it horizontally,
/// then vertically, then rotating it by 90 degrees clockwise, as asked.
pub open spec fn transform(
    x: int,
    y: int,
    w: int,
    h: int,
    flip_h: bool,
    flip_v: bool,
    rotate: bool,
) -> (int, int) {
    let x1 = if flip_h {
        w - x - 1
    } else {
        x
    };
    let y1 = if flip_v {
        h - y - 1
    } else {
        y
    };
    if rotate {
        (h - y1 - 1, x1)
    } else {
        (x1, y1)
    }
}

fn apply_transform(
    pos: (i16, i16),
    w: u16,
    h: u16,
    flip_h: bool,
    flip_v: bool,
    rotate: bool,
) -> (out: (i16, i16))
    requires
        0 <= pos.0 < w as i16,
        0 <= pos.1 < h as i16,
    ensures
        (out.0 as int, out.1 as int) == transform(
            pos.0 as int,
            pos.1 as int,
            (w as i16) as int,
            (h as i16) as int,
            flip_h,
            flip_v,
            rotate,
        ),
{
    let pos = if flip_h {
        (w as i16 - pos.0 - 1, pos.1)
    } else {
        pos
    };

    let pos = if flip_v {
        (pos.0, h as i16 - pos.1 - 1)
    } else {
        pos
    };

    if rotate {
        (h as i16 - pos.1 - 1, pos.0)
    } else {
        pos
    }
}

/// One more element of `s` filtered.
proof fn lemma_filter_take<A>(s: Seq<A>, pred: spec_fn(A) -> bool, i: int)
    requires
        0 <= i < s.len(),
    ensures
        s.take(i + 1).filter(pred) == (if pred(s[i]) {
            s.take(i).filter(pred).push(s[i])
        } else {
            s.take(i).filter(pred)
        }),
{
    reveal(Seq::filter);
    assert(s.take(i + 1).drop_last() =~= s.take(i));
}

/// Tags taken by their contents.
pub open spec fn tags_view(tags: Seq<String>) -> Seq<Seq<char>> {
    tags.map_values(|t: String| t@)
}

/// Whether a recorded call was made under `tag`.
pub open spec fn tagged(tag: Seq<char>) -> spec_fn((Seq<Seq<char>>, CallView)) -> bool {
    |entry: (Seq<Seq<char>>, CallView)| entry.0.contains(tag)
}

/// The calls of `history` made under `tag`, in the order they were made.
pub open spec fn calls_by_tag(history: Seq<(Seq<Seq<char>>, CallView)>, tag: Seq<char>) -> Seq<
    CallView,
> {
    history.filter(tagged(tag)).map_values(|entry: (Seq<Seq<char>>, CallView)| entry.1)
}

/// The storage after writing `data` at `offset`: it grows with zeros to hold the data where it
/// is too short.
pub open spec fn written_storage(state: Seq<u8>, offset: nat, data: Seq<u8>) -> Seq<u8> {
    let end = offset + data.len();
    let len = if state.len() < end {
        end
    } else {
        state.len()
    };
    Seq::new(
        len as nat,
        |i: int|
            if offset <= i < end {
                data[i - offset]
            } else if i < state.len() {
                state[i]
            } else {
                0u8
            },
    )
}

/// The arguments of a draw call that place the region.
pub struct DrawRegion {
    pub x: i16,
    pub y: i16,
    pub src_x: i16,
    pub src_y: i16,
    pub src_w: u16,
    pub src_h: u16,
    pub flip_h: bool,
    pub flip_v: bool,
    pub rotate: bool,
}

/// The width of the region, as the drawing code reads it (a signed 16-bit value).
pub open spec fn region_w(a: DrawRegion) -> int {
    (a.src_w as i16) as int
}

/// The height of the region, as the drawing code reads it (a signed 16-bit value).
pub open spec fn region_h(a: DrawRegion) -> int {
    (a.src_h as i16) as int
}

/// The width of the atlas, stored in its last byte.
pub open spec fn atlas_width(data: Seq<u8>) -> int {
    data.last() as int
}

/// The atlas index of the region's pixel (`ox`, `oy`).
pub open spec fn src_index(a: DrawRegion, width: int, ox: int, oy: int) -> int {
    (a.src_y + oy) * width + a.src_x + ox
}

/// The screen index that the region's pixel (`ox`, `oy`) is drawn to.
pub open spec fn screen_index(a: DrawRegion, ox: int, oy: int) -> int {
    let p = transform(ox, oy, region_w(a), region_h(a), a.flip_h, a.flip_v, a.rotate);
    (a.y + p.1) * 128 + a.x + p.0
}

pub open spec fn fits_i16(v: int) -> bool {
    i16::MIN <= v <= i16::MAX
}

/// Whether the region's pixel (`ox`, `oy`) can be drawn: every step of computing its atlas
/// and screen indices stays within 16 bits, and the indices lie within the atlas and the
/// screen.
pub open spec fn pixel_ok(a: DrawRegion, data_len: nat, width: int, ox: int, oy: int) -> bool {
    let p = transform(ox, oy, region_w(a), region_h(a), a.flip_h, a.flip_v, a.rotate);
    &&& fits_i16(a.src_y + oy)
    &&& fits_i16((a.src_y + oy) * width)
    &&& fits_i16((a.src_y + oy) * width + a.src_x)
    &&& fits_i16(src_index(a, width, ox, oy))
    &&& 0 <= src_index(a, width, ox, oy) < data_len
    &&& fits_i16(a.y + p.1)
    &&& fits_i16((a.y + p.1) * 128)
    &&& fits_i16((a.y + p.1) * 128 + a.x)
    &&& fits_i16(screen_index(a, ox, oy))
    &&& 0 <= screen_index(a, ox, oy) < 16384
}

/// Whether every pixel of the region can be drawn from the atlas `data`.
pub open spec fn draw_ok(a: DrawRegion, data: Seq<u8>) -> bool {
    &&& data.len() > 0
    &&& forall|ox: int, oy: int|
        0 <= ox < region_w(a) && 0 <= oy < region_h(a) ==> #[trigger] pixel_ok(
            a,
            data.len(),
            atlas_width(data),
            ox,
            oy,
        )
}

/// The screen after drawing the first `n` pixels of row `oy` of the region.
pub open spec fn draw_row(screen: Seq<u8>, a: DrawRegion, data: Seq<u8>, oy: int, n: nat) -> Seq<
    u8,
>
    decreases n,
{
    if n == 0 {
        screen
    } else {
        let ox = n - 1;
        draw_row(screen, a, data, oy, (n - 1) as nat).update(
            screen_index(a, ox, oy),
            data[src_index(a, atlas_width(data), ox, oy)],
        )
    }
}

/// The screen after drawing the first `n` rows of the region, row by row, each from left to
/// right; a later pixel overwrites an earlier one drawn to the same place.
pub open spec fn draw_rows(screen: Seq<u8>, a: DrawRegion, data: Seq<u8>, n: nat) -> Seq<u8>
    decreases n,
{
    if n == 0 {
        screen
    } else {
        let w: nat = if region_w(a) > 0 {
            region_w(a) as nat
        } else {
            0
        };
        draw_row(draw_rows(screen, a, data, (n - 1) as nat), a, data, n - 1, w)
    }
}

/// The screen after drawing the whole region.
pub open spec fn draw_region(screen: Seq<u8>, a: DrawRegion, data: Seq<u8>) -> Seq<u8> {
    draw_rows(
        screen,
        a,
        data,
        if region_h(a) > 0 {
            region_h(a) as nat
        } else {
            0
        },
    )
}

/// Whether `tag` is one of `tags`.
fn has_tag(tags: &Vec<String>, tag: &String) -> (out: bool)
    ensures
        out == tags_view(tags@).contains(tag@),
{
    let mut j: usize = 0;
    while j < tags.len()
        invariant
            j <= tags@.len(),
            forall|k: int| 0 <= k < j ==> tags@[k]@ != tag@,
        decreases tags@.len() - j,
    {
        if tags[j] == *tag {
            proof {
                assert(tags_view(tags@)[j as int] == tag@);
            }
            return true;
        }
        j = j + 1;
    }
    proof {
        if tags_view(tags@).contains(tag@) {
            let k = choose|k: int| 0 <= k < tags_view(tags@).len() && tags_view(tags@)[k] == tag@;
            assert(tags@[k]@ == tag@);
        }
    }
    false
}

/// A target that records the calls made on it, under the tags current at the time.
pub struct MockTarget {
    call_history: Vec<(Vec<String>, Call)>,
    current_tags: Vec<String>,
    pub screen_buffer: [u8; 16384],
    pub state: Vec<u8>,
}

impl MockTarget {
    /// The current tags, innermost last.
    pub closed spec fn tags(&self) -> Seq<Seq<char>> {
        tags_view(self.current_tags@)
    }

    /// The screen's pixels, row by row.
    pub closed spec fn screen(&self) -> Seq<u8> {
        self.screen_buffer@
    }

    /// The persistent storage.
    pub closed spec fn storage(&self) -> Seq<u8> {
        self.state@
    }

    /// The recorded calls, oldest first, each with the tags current when it was made.
    pub closed spec fn history(&self) -> Seq<(Seq<Seq<char>>, CallView)> {
        self.call_history@.map_values(
            |entry: (Vec<String>, Call)| (tags_view(entry.0@), entry.1@),
        )
    }

    /// A target with a blank screen, empty storage and no recorded call or tag.
    pub fn new() -> (out: MockTarget)
        ensures
            out.history() == Seq::<(Seq<Seq<char>>, CallView)>::empty(),
            out.tags() == Seq::<Seq<char>>::empty(),
            out.screen() == Seq::new(16384, |i: int| 0u8),
            out.storage() == Seq::<u8>::empty(),
    {
        let out = MockTarget {
            call_history: Vec::new(),
            current_tags: Vec::new(),
            screen_buffer: [0u8; 16384],
            state: Vec::new(),
        };
        proof {
            assert(out.history() =~= Seq::<(Seq<Seq<char>>, CallView)>::empty());
            assert(out.tags() =~= Seq::<Seq<char>>::empty());
            assert(out.screen_buffer@ =~= Seq::new(16384, |i: int| 0u8));
        }
        out
    }

    /// Records a message.
    pub fn log(&mut self, msg: &str)
        ensures
            final(self).history() == old(self).history().push(
                (old(self).tags(), CallView::Log { msg: msg@ }),
            ),
            final(self).tags() == old(self).tags(),
            final(self).screen() == old(self).screen(),
            final(self).storage() == old(self).storage(),
    {
        self.record_call(Call::Log { msg: msg.to_owned() });
    }

    fn record_call(&mut self, call: Call)
        ensures
            final(self).history() == old(self).history().push((old(self).tags(), call@)),
            final(self).tags() == old(self).tags(),
            final(self).screen() == old(self).screen(),
            final(self).storage() == old(self).storage(),
    {
        let tags = self.current_tags.clone();
        proof {
            assert(tags_view(tags@) =~= tags_view(self.current_tags@));
        }
        self.call_history.push((tags, call));
        proof {
            assert(self.history() =~= old(self).history().push((old(self).tags(), call@)));
        }
    }

    /// Forgets every recorded call.
    pub fn clear_call_history(&mut self)
        ensures
            final(self).history() == Seq::<(Seq<Seq<char>>, CallView)>::empty(),
            final(self).tags() == old(self).tags(),
            final(self).screen() == old(self).screen(),
            final(self).storage() == old(self).storage(),
    {
        self.call_history.clear();
        proof {
            assert(self.history() =~= Seq::<(Seq<Seq<char>>, CallView)>::empty());
        }
    }

    /// The recorded calls made under `tag`, oldest first.
    pub fn get_calls_by_tag(&self, tag: &str) -> (out: Vec<Call>)
        ensures
            out@.map_values(|c: Call| c@) == calls_by_tag(self.history(), tag@),
    {
        let tag_owned = tag.to_owned();
        let ghost pred = tagged(tag@);
        let ghost second = |entry: (Seq<Seq<char>>, CallView)| entry.1;
        let mut out: Vec<Call> = Vec::new();
        let mut i: usize = 0;
        while i < self.call_history.len()
            invariant
                tag_owned@ == tag@,
                pred == tagged(tag@),
                second == (|entry: (Seq<Seq<char>>, CallView)| entry.1),
                i <= self.call_history@.len(),
                out@.map_values(|c: Call| c@) == self.history().take(i as int).filter(pred).map_values(
                    second,
                ),
            decreases self.call_history@.len() - i,
        {
            proof {
                lemma_filter_take(self.history(), pred, i as int);
            }
            let entry = &self.call_history[i];
            if has_tag(&entry.0, &tag_owned) {
                let call = entry.1.clone();
                let ghost before = out@;
                out.push(call);
                proof {
                    assert(out@.map_values(|c: Call| c@) =~= before.map_values(|c: Call| c@).push(
                        call@,
                    ));
                    assert(self.history().take(i as int).filter(pred).push(self.history()[i as int]).map_values(
                        second,
                    ) =~= self.history().take(i as int).filter(pred).map_values(second).push(
                        second(self.history()[i as int]),
                    ));
                }
            }
            i = i + 1;
        }
        proof {
            assert(self.history().take(self.call_history@.len() as int) =~= self.history());
        }
        out
    }

    /// Makes `tag` the innermost current tag.
    pub fn push_tag(&mut self, tag: &str)
        ensures
            final(self).tags() == old(self).tags().push(tag@),
            final(self).history() == old(self).history(),
            final(self).screen() == old(self).screen(),
            final(self).storage() == old(self).storage(),
    {
        self.current_tags.push(tag.to_owned());
        proof {
            assert(self.tags() =~= old(self).tags().push(tag@));
            assert(self.history() =~= old(self).history());
        }
    }

    /// Drops the innermost current tag, if there is one.
    pub fn pop_tag(&mut self)
        ensures
            final(self).tags() == (if old(self).tags().len() > 0 {
                old(self).tags().drop_last()
            } else {
                old(self).tags()
            }),
            final(self).history() == old(self).history(),
            final(self).screen() == old(self).screen(),
            final(self).storage() == old(self).storage(),
    {
        let _ = self.current_tags.pop();
        proof {
            assert(self.history() =~= old(self).history());
            if old(self).tags().len() > 0 {
                assert(self.tags() =~= old(self).tags().drop_last());
            }
        }
    }
}

impl MockTarget {
    fn draw_sub_impl(
        &mut self,
        data: &[u8],
        x: i16,
        y: i16,
        src_x: i16,
        src_y: i16,
        src_w: u16,
        src_h: u16,
        flip_h: bool,
        flip_v: bool,
        rotate: bool,
    )
        requires
            draw_ok(
                DrawRegion { x, y, src_x, src_y, src_w, src_h, flip_h, flip_v, rotate },
                data@,
            ),
        ensures
            final(self).screen() == draw_region(
                old(self).screen(),
                DrawRegion { x, y, src_x, src_y, src_w, src_h, flip_h, flip_v, rotate },
                data@,
            ),
            final(self).history() == old(self).history(),
            final(self).tags() == old(self).tags(),
            final(self).storage() == old(self).storage(),
    {
        let ghost a = DrawRegion { x, y, src_x, src_y, src_w, src_h, flip_h, flip_v, rotate };
        let data_width = data[data.len() - 1] as i16;
        let h = src_h as i16;
        let w = src_w as i16;
        let mut offset_y: i16 = 0;
        while offset_y < h
            invariant
                a == (DrawRegion { x, y, src_x, src_y, src_w, src_h, flip_h, flip_v, rotate }),
                draw_ok(a, data@),
                data_width == atlas_width(data@),
                h == region_h(a),
                w == region_w(a),
                0 <= offset_y <= h || (h < 0 && offset_y == 0),
                self.screen() == draw_rows(old(self).screen(), a, data@, offset_y as nat),
                self.history() == old(self).history(),
                self.tags() == old(self).tags(),
                self.storage() == old(self).storage(),
            decreases h - offset_y,
        {
            let mut offset_x: i16 = 0;
            while offset_x < w
                invariant
                    a == (DrawRegion { x, y, src_x, src_y, src_w, src_h, flip_h, flip_v, rotate }),
                    draw_ok(a, data@),
                    data_width == atlas_width(data@),
                    h == region_h(a),
                    w == region_w(a),
                    0 <= offset_y < h,
                    0 <= offset_x <= w || (w < 0 && offset_x == 0),
                    self.screen() == draw_row(
                        draw_rows(old(self).screen(), a, data@, offset_y as nat),
                        a,
                        data@,
                        offset_y as int,
                        offset_x as nat,
                    ),
                    self.history() == old(self).history(),
                    self.tags() == old(self).tags(),
                    self.storage() == old(self).storage(),
                decreases w - offset_x,
            {
                assert(pixel_ok(a, data@.len(), atlas_width(data@), offset_x as int, offset_y as int));
                let src_index = (src_y + offset_y) * data_width + src_x + offset_x;
                let screen_offset = apply_transform(
                    (offset_x, offset_y),
                    src_w,
                    src_h,
                    flip_h,
                    flip_v,
                    rotate,
                );
                let screen_index = (y + screen_offset.1) * 128 + x + screen_offset.0;
                self.screen_buffer[screen_index as usize] = data[src_index as usize];
                offset_x = offset_x + 1;
            }
            offset_y = offset_y + 1;
        }
    }
}

impl SkyliteTarget for MockTarget {
    open spec fn screen_size(&self) -> (u16, u16) {
        (128, 128)
    }

    open spec fn can_draw(
        &self,
        data: Seq<u8>,
        x: i16,
        y: i16,
        src_x: i16,
        src_y: i16,
        src_w: u16,
        src_h: u16,
        flip_h: bool,
        flip_v: bool,
        rotate: bool,
    ) -> bool {
        draw_ok(DrawRegion { x, y, src_x, src_y, src_w, src_h, flip_h, flip_v, rotate }, data)
    }

    open spec fn can_write_storage(&self, offset: usize, len: nat) -> bool {
        offset + len <= usize::MAX
    }

    open spec fn can_read_storage(&self, offset: usize, len: usize) -> bool {
        offset + len <= self.storage().len()
    }

    /// Records the call, with a hash of the atlas, and draws the region to the screen.
    fn draw_sub(
        &mut self,
        data: &[u8],
        x: i16,
        y: i16,
        src_x: i16,
        src_y: i16,
        src_w: u16,
        src_h: u16,
        flip_h: bool,
        flip_v: bool,
        rotate: bool,
    )
        ensures
            final(self).history() == old(self).history().push(
                (
                    old(self).tags(),
                    CallView::DrawSub {
                        data: DefaultHasher::spec_finish(seq![data@]),
                        x,
                        y,
                        src_x,
                        src_y,
                        src_w,
                        src_h,
                        flip_h,
                        flip_v,
                        rotate,
                    },
                ),
            ),
            final(self).screen() == draw_region(
                old(self).screen(),
                DrawRegion { x, y, src_x, src_y, src_w, src_h, flip_h, flip_v, rotate },
                data@,
            ),
            final(self).tags() == old(self).tags(),
            final(self).storage() == old(self).storage(),
    {
        let mut hasher = DefaultHasher::new();
        hasher.write(data);
        let hash = hasher.finish();
        proof {
            assert(Seq::<Seq<u8>>::empty().push(data@) =~= seq![data@]);
        }
        self.record_call(
            Call::DrawSub { data: hash, x, y, src_x, src_y, src_w, src_h, flip_h, flip_v, rotate },
        );
        self.draw_sub_impl(data, x, y, src_x, src_y, src_w, src_h, flip_h, flip_v, rotate);
    }

    fn get_screen_size(&self) -> (out: (u16, u16)) {
        (128, 128)
    }

    /// Writes the data into the storage, growing it with zeros where it is too short, and
    /// records the call.
    fn write_storage(&mut self, offset: usize, data: &[u8])
        ensures
            final(self).storage() == written_storage(old(self).storage(), offset as nat, data@),
            final(self).history() == old(self).history().push(
                (old(self).tags(), CallView::WriteStorage { offset, data: data@ }),
            ),
            final(self).tags() == old(self).tags(),
            final(self).screen() == old(self).screen(),
    {
        if self.state.len() < offset + data.len() {
            let extra = offset + data.len() - self.state.len();
            let mut k: usize = 0;
            while k < extra
                invariant
                    k <= extra,
                    extra == offset + data@.len() - old(self).state@.len(),
                    self.state@ == old(self).state@ + Seq::new(k as nat, |i: int| 0u8),
                    self.call_history == old(self).call_history,
                    self.current_tags == old(self).current_tags,
                    self.screen_buffer == old(self).screen_buffer,
                decreases extra - k,
            {
                self.state.push(0);
                k = k + 1;
                proof {
                    assert(self.state@ =~= old(self).state@ + Seq::new(k as nat, |i: int| 0u8));
                }
            }
        }
        let ghost grown = self.state@;
        let mut i: usize = 0;
        while i < data.len()
            invariant
                offset + data@.len() <= self.state@.len(),
                offset + data@.len() <= usize::MAX,
                self.state@.len() == grown.len(),
                i <= data@.len(),
                forall|j: int|
                    0 <= j < grown.len() ==> #[trigger] self.state@[j] == if offset <= j < offset
                        + i {
                        data@[j - offset]
                    } else {
                        grown[j]
                    },
                self.call_history == old(self).call_history,
                self.current_tags == old(self).current_tags,
                self.screen_buffer == old(self).screen_buffer,
            decreases data@.len() - i,
        {
            self.state[offset + i] = data[i];
            i = i + 1;
        }
        proof {
            assert(self.state@ =~= written_storage(old(self).state@, offset as nat, data@));
        }
        self.record_call(Call::WriteStorage { offset, data: vstd::slice::slice_to_vec(data) });
    }

    /// The `len` bytes of storage at `offset`.
    fn read_storage(&self, offset: usize, len: usize) -> (out: Vec<u8>)
        ensures
            out@ == self.storage().subrange(offset as int, offset + len),
    {
        let n = self.state.len();
        assert(offset + len <= n);
        let part = vstd::slice::slice_subrange(self.state.as_slice(), offset, offset + len);
        vstd::slice::slice_to_vec(part)
    }
}

/// What a read of the storage gives back of a write: the bytes written, while the bytes
/// outside the written range keep their values.
pub proof fn lemma_storage_read_after_write(state: Seq<u8>, offset: nat, data: Seq<u8>, i: int)
    requires
        0 <= i < state.len(),
        !(offset <= i < offset + data.len()),
    ensures
        written_storage(state, offset, data).subrange(offset as int, (offset + data.len()) as int) == data,
        written_storage(state, offset, data)[i] == state[i],
{
    assert(written_storage(state, offset, data).subrange(offset as int, (offset + data.len()) as int)
        =~= data);
}

} // verus!
