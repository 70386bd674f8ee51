use vstd::arithmetic::div_mod::lemma_fundamental_div_mod_converse;
use vstd::prelude::*;

verus! {

/// A pixel event in exact arithmetic: column, row and raw RGBA color.
pub type Event = (int, int, [u8; 4]);

/// One pixel that a rasterizer produced, relative to the origin of its glyph.
#[derive(Debug, Clone, Copy)]
pub struct RasterPixel {
    pub x: i32,
    pub y: i32,
    pub rgba: [u8; 4],
}

/// A glyph as the shaping engine placed it on its line, with its raster and the left placement
/// of that raster relative to the pen position (`None` when the glyph has no raster).
#[derive(Debug, Clone)]
pub struct GlyphRaster {
    pub x: i32,
    pub y: i32,
    pub left: Option<i32>,
    pub pixels: Vec<RasterPixel>,
}

/// One shaped line of a text segment: its baseline, its advance width rounded up to whole
/// pixels, and its glyphs.
#[derive(Debug, Clone)]
pub struct RunRaster {
    pub line_y: i32,
    pub width: i32,
    pub glyphs: Vec<GlyphRaster>,
}

/// What the engines produced for one segment.
///
/// A text segment carries its shaped lines. An emoji carries its raster: a square of the
/// capital height's side, row by row.
#[derive(Debug, Clone)]
pub enum SegmentRaster {
    Text { runs: Vec<RunRaster> },
    Emoji { pixels: Vec<[u8; 4]> },
}

/// A pixel handed to the caller's sink.
#[derive(Debug, Clone, Copy)]
pub struct Pixel {
    pub x: i32,
    pub y: i32,
    pub rgba: [u8; 4],
}

pub open spec fn in_i32(v: int) -> bool {
    i32::MIN <= v <= i32::MAX
}

/// Both coordinates of the event fit in an `i32`.
pub open spec fn fits(e: Event) -> bool {
    in_i32(e.0) && in_i32(e.1)
}

/// Every event of the stream has coordinates that an `i32` holds.
pub open spec fn all_fit(evs: Seq<Event>) -> bool {
    forall|i: int| 0 <= i < evs.len() ==> fits(#[trigger] evs[i])
}

pub open spec fn pixel_event(p: Pixel) -> Event {
    (p.x as int, p.y as int, p.rgba)
}

pub open spec fn pixels_view(v: Seq<Pixel>) -> Seq<Event> {
    v.map_values(|p: Pixel| pixel_event(p))
}

/// The events of one glyph on a line at `line_y`, moved right by `shift`.
pub open spec fn glyph_events(g: GlyphRaster, line_y: int, shift: int) -> Seq<Event> {
    g.pixels@.map_values(|p: RasterPixel| (g.x + p.x + shift, line_y + g.y + p.y, p.rgba))
}

/// The events of a line's glyphs, in order.
pub open spec fn glyphs_events(gs: Seq<GlyphRaster>, line_y: int, shift: int) -> Seq<Event>
    decreases gs.len(),
{
    if gs.len() == 0 {
        Seq::empty()
    } else {
        glyphs_events(gs.drop_last(), line_y, shift) + glyph_events(gs.last(), line_y, shift)
    }
}

proof fn lemma_all_fit_concat(a: Seq<Event>, b: Seq<Event>)
    ensures
        all_fit(a + b) == (all_fit(a) && all_fit(b)),
{
    if all_fit(a + b) {
        assert forall|i: int| 0 <= i < b.len() implies fits(#[trigger] b[i]) by {
            assert((a + b)[a.len() + i] == b[i]);
        }
        assert forall|i: int| 0 <= i < a.len() implies fits(#[trigger] a[i]) by {
            assert((a + b)[i] == a[i]);
        }
    }
    if all_fit(a) && all_fit(b) {
        assert forall|i: int| 0 <= i < (a + b).len() implies fits(#[trigger] (a + b)[i]) by {
            if i < a.len() {
                assert((a + b)[i] == a[i]);
            } else {
                assert((a + b)[i] == b[i - a.len()]);
            }
        }
    }
}

proof fn lemma_glyphs_prefix(gs: Seq<GlyphRaster>, k: int, line_y: int, shift: int)
    requires
        0 <= k <= gs.len(),
    ensures
        glyphs_events(gs.take(k), line_y, shift).is_prefix_of(glyphs_events(gs, line_y, shift)),
    decreases gs.len(),
{
    if k < gs.len() {
        assert(gs.drop_last().take(k) =~= gs.take(k));
        lemma_glyphs_prefix(gs.drop_last(), k, line_y, shift);
    } else {
        assert(gs.take(k) =~= gs);
    }
}

/// Appends the events of a line's glyphs to `out`; false when a coordinate leaves `i32`.
fn place_glyphs(glyphs: &Vec<GlyphRaster>, line_y: i32, shift: i64, out: &mut Vec<Pixel>) -> (ok:
    bool)
    requires
        -0x1_0000_0000 <= shift <= 0x1_0000_0000,
    ensures
        ok == all_fit(glyphs_events(glyphs@, line_y as int, shift as int)),
        ok ==> pixels_view(final(out)@) == pixels_view(old(out)@) + glyphs_events(
            glyphs@,
            line_y as int,
            shift as int,
        ),
{
    let ghost start = pixels_view(out@);
    let ghost ly = line_y as int;
    let ghost sh = shift as int;
    let mut i: usize = 0;
    while i < glyphs.len()
        invariant
            0 <= i <= glyphs@.len(),
            -0x1_0000_0000 <= shift <= 0x1_0000_0000,
            ly == line_y as int,
            sh == shift as int,
            pixels_view(out@) == start + glyphs_events(glyphs@.take(i as int), ly, sh),
            all_fit(glyphs_events(glyphs@.take(i as int), ly, sh)),
        decreases glyphs@.len() - i,
    {
        let g = &glyphs[i];
        let ghost before = glyphs_events(glyphs@.take(i as int), ly, sh);
        assert(glyphs@.take(i + 1).drop_last() =~= glyphs@.take(i as int));
        assert(glyphs@.take(i + 1).last() == *g);
        let mut j: usize = 0;
        while j < g.pixels.len()
            invariant
                0 <= j <= g.pixels@.len(),
                -0x1_0000_0000 <= shift <= 0x1_0000_0000,
                ly == line_y as int,
                sh == shift as int,
                pixels_view(out@) == start + before + glyph_events(*g, ly, sh).take(j as int),
                i < glyphs@.len(),
                *g == glyphs@[i as int],
                glyphs@.take(i + 1).drop_last() == glyphs@.take(i as int),
                before == glyphs_events(glyphs@.take(i as int), ly, sh),
                all_fit(before),
                all_fit(glyph_events(*g, ly, sh).take(j as int)),
            decreases g.pixels@.len() - j,
        {
            let p = g.pixels[j];
            let x: i64 = g.x as i64 + p.x as i64 + shift;
            let y: i64 = line_y as i64 + g.y as i64 + p.y as i64;
            let ghost e = glyph_events(*g, ly, sh)[j as int];
            assert(e == (x as int, y as int, p.rgba));
            if x < i32::MIN as i64 || x > i32::MAX as i64 || y < i32::MIN as i64 || y
                > i32::MAX as i64 {
                proof {
                    let whole = glyphs_events(glyphs@, ly, sh);
                    let upto = glyphs_events(glyphs@.take(i + 1), ly, sh);
                    assert(upto[before.len() + j] == e);
                    lemma_glyphs_prefix(glyphs@, i + 1, ly, sh);
                    assert(whole.subrange(0, upto.len() as int)[before.len() + j] == e);
                    assert(whole[before.len() + j] == e);
                    assert(!fits(whole[before.len() + j]));
                }
                return false;
            }
            let ghost prev_out = out@;
            let px = Pixel { x: x as i32, y: y as i32, rgba: p.rgba };
            out.push(px);
            assert(out@ =~= prev_out.push(px));
            assert(pixels_view(out@) =~= pixels_view(prev_out).push(e));
            assert(glyph_events(*g, ly, sh).take(j + 1) =~= glyph_events(*g, ly, sh).take(
                j as int,
            ).push(e));
            assert(start + before + glyph_events(*g, ly, sh).take(j + 1) =~= (start + before
                + glyph_events(*g, ly, sh).take(j as int)).push(e));
            j = j + 1;
        }
        assert(glyph_events(*g, ly, sh).take(j as int) =~= glyph_events(*g, ly, sh));
        proof {
            lemma_all_fit_concat(before, glyph_events(*g, ly, sh));
        }
        assert(start + before + glyph_events(*g, ly, sh) =~= start + (before + glyph_events(
            *g,
            ly,
            sh,
        )));
        i = i + 1;
    }
    assert(glyphs@.take(i as int) =~= glyphs@);
    true
}

/// The advance of a text segment's lines, summed.
pub open spec fn runs_advance(runs: Seq<RunRaster>) -> int
    decreases runs.len(),
{
    if runs.len() == 0 {
        0
    } else {
        runs_advance(runs.drop_last()) + runs.last().width
    }
}

/// The events of a text segment whose lines start at the cursor `adv`: each line is drawn at
/// the cursor, and the cursor then moves on by the line's width.
pub open spec fn runs_events(runs: Seq<RunRaster>, x_offset: int, adv: int) -> Seq<Event>
    decreases runs.len(),
{
    if runs.len() == 0 {
        Seq::empty()
    } else {
        let r = runs.last();
        runs_events(runs.drop_last(), x_offset, adv) + glyphs_events(
            r.glyphs@,
            r.line_y as int,
            adv + runs_advance(runs.drop_last()) - x_offset,
        )
    }
}

/// Each event and each cursor position of a text segment fits in an `i32`.
pub open spec fn runs_ok(runs: Seq<RunRaster>, x_offset: int, adv: int) -> bool
    decreases runs.len(),
{
    if runs.len() == 0 {
        true
    } else {
        let r = runs.last();
        runs_ok(runs.drop_last(), x_offset, adv) && all_fit(
            glyphs_events(
                r.glyphs@,
                r.line_y as int,
                adv + runs_advance(runs.drop_last()) - x_offset,
            ),
        ) && in_i32(adv + runs_advance(runs))
    }
}

proof fn lemma_runs_ok_prefix(runs: Seq<RunRaster>, k: int, x_offset: int, adv: int)
    requires
        0 <= k <= runs.len(),
        runs_ok(runs, x_offset, adv),
    ensures
        runs_ok(runs.take(k), x_offset, adv),
    decreases runs.len(),
{
    if k < runs.len() {
        assert(runs.drop_last().take(k) =~= runs.take(k));
        lemma_runs_ok_prefix(runs.drop_last(), k, x_offset, adv);
    } else {
        assert(runs.take(k) =~= runs);
    }
}

/// Appends the events of a text segment's lines, drawn from the cursor `adv`, to `out`, and
/// returns the cursor after them; `None` when a coordinate or the cursor leaves `i32`.
fn place_runs(runs: &Vec<RunRaster>, x_offset: i32, adv: i32, out: &mut Vec<Pixel>) -> (r:
    Option<i32>)
    ensures
        r is Some == runs_ok(runs@, x_offset as int, adv as int),
        r matches Some(a) ==> a == adv + runs_advance(runs@) && pixels_view(final(out)@)
            == pixels_view(old(out)@) + runs_events(runs@, x_offset as int, adv as int),
{
    let ghost start = pixels_view(out@);
    let ghost xo = x_offset as int;
    let ghost a0 = adv as int;
    let mut cur: i32 = adv;
    let mut i: usize = 0;
    while i < runs.len()
        invariant
            0 <= i <= runs@.len(),
            xo == x_offset as int,
            a0 == adv as int,
            cur == a0 + runs_advance(runs@.take(i as int)),
            runs_ok(runs@.take(i as int), xo, a0),
            pixels_view(out@) == start + runs_events(runs@.take(i as int), xo, a0),
        decreases runs@.len() - i,
    {
        let run = &runs[i];
        let ghost upto = runs@.take(i + 1);
        assert(upto.drop_last() =~= runs@.take(i as int));
        assert(upto.last() == *run);
        let shift: i64 = cur as i64 - x_offset as i64;
        let ok = place_glyphs(&run.glyphs, run.line_y, shift, out);
        if !ok {
            proof {
                if runs_ok(runs@, xo, a0) {
                    lemma_runs_ok_prefix(runs@, i + 1, xo, a0);
                }
            }
            return None;
        }
        let next: i64 = cur as i64 + run.width as i64;
        if next < i32::MIN as i64 || next > i32::MAX as i64 {
            proof {
                if runs_ok(runs@, xo, a0) {
                    lemma_runs_ok_prefix(runs@, i + 1, xo, a0);
                }
            }
            return None;
        }
        cur = next as i32;
        i = i + 1;
    }
    assert(runs@.take(i as int) =~= runs@);
    Some(cur)
}

/// The horizontal gap that an emoji leaves on each side: a tenth of the capital height.
pub open spec fn spacer(cap_height: int) -> int {
    cap_height / 10
}

/// How many raster pixels of an emoji are drawn: the square of the capital height, as far as
/// the raster reaches.
pub open spec fn emoji_count(len: int, cap_height: int) -> int {
    if cap_height * cap_height < len {
        cap_height * cap_height
    } else {
        len
    }
}

/// The events of an emoji raster, row by row, moved right by `shift`, with its bottom row on
/// the capital baseline `cap_line_y`.
pub open spec fn emoji_events(
    pixels: Seq<[u8; 4]>,
    cap_height: int,
    cap_line_y: int,
    shift: int,
) -> Seq<Event> {
    Seq::new(
        emoji_count(pixels.len() as int, cap_height) as nat,
        |k: int| (k % cap_height + shift, k / cap_height + cap_line_y - cap_height, pixels[k]),
    )
}

/// Each event of an emoji and the cursor on both sides of it fit in an `i32`.
pub open spec fn emoji_ok(
    pixels: Seq<[u8; 4]>,
    cap_height: int,
    cap_line_y: int,
    x_offset: int,
    adv: int,
) -> bool {
    &&& in_i32(adv + spacer(cap_height))
    &&& all_fit(emoji_events(pixels, cap_height, cap_line_y, adv + spacer(cap_height) - x_offset))
    &&& in_i32(adv + 2 * spacer(cap_height) + cap_height)
}

/// Appends the events of an emoji drawn after the cursor `adv` to `out`, and returns the cursor
/// after it; `None` when a coordinate or the cursor leaves `i32`.
fn place_emoji(
    pixels: &Vec<[u8; 4]>,
    cap_height: u32,
    cap_line_y: i32,
    x_offset: i32,
    adv: i32,
    out: &mut Vec<Pixel>,
) -> (r: Option<i32>)
    ensures
        r is Some == emoji_ok(
            pixels@,
            cap_height as int,
            cap_line_y as int,
            x_offset as int,
            adv as int,
        ),
        r matches Some(a) ==> a == adv + 2 * spacer(cap_height as int) + cap_height && pixels_view(
            final(out)@,
        ) == pixels_view(old(out)@) + emoji_events(
            pixels@,
            cap_height as int,
            cap_line_y as int,
            adv + spacer(cap_height as int) - x_offset,
        ),
{
    let ghost start = pixels_view(out@);
    let ghost h = cap_height as int;
    let ghost ly = cap_line_y as int;
    let space: u32 = cap_height / 10;
    let first: i64 = adv as i64 + space as i64;
    if first < i32::MIN as i64 || first > i32::MAX as i64 {
        return None;
    }
    let shift: i64 = first - x_offset as i64;
    let ghost sh = shift as int;
    assert(sh == adv + spacer(h) - x_offset);
    let ghost evs = emoji_events(pixels@, h, ly, sh);
    assert(h * h <= 0xffff_fffe_0000_0001) by (nonlinear_arith)
        requires
            0 <= h <= 0xffff_ffff,
    ;
    let area: u64 = cap_height as u64 * cap_height as u64;
    let mut k: usize = 0;
    while k < pixels.len() && (k as u64) < area
        invariant
            0 <= k <= evs.len(),
            h == cap_height as int,
            ly == cap_line_y as int,
            sh == shift as int,
            sh == adv + spacer(h) - x_offset,
            area == h * h,
            -0x1_0000_0000 <= shift <= 0x1_0000_0000,
            evs == emoji_events(pixels@, h, ly, sh),
            pixels_view(out@) == start + evs.take(k as int),
            all_fit(evs.take(k as int)),
        decreases evs.len() - k,
    {
        assert((k as int) / h < h) by (nonlinear_arith)
            requires
                0 <= (k as int) < h * h,
                h > 0,
        ;
        let x: i64 = (k as u64 % cap_height as u64) as i64 + shift;
        let y: i64 = (k as u64 / cap_height as u64) as i64 + cap_line_y as i64 - cap_height as i64;
        let ghost e = evs[k as int];
        assert(e == (x as int, y as int, pixels@[k as int]));
        if x < i32::MIN as i64 || x > i32::MAX as i64 || y < i32::MIN as i64 || y
            > i32::MAX as i64 {
            assert(!fits(evs[k as int]));
            assert(!all_fit(evs));
            return None;
        }
        let ghost prev_out = out@;
        let px = Pixel { x: x as i32, y: y as i32, rgba: pixels[k] };
        out.push(px);
        assert(out@ =~= prev_out.push(px));
        assert(pixels_view(out@) =~= pixels_view(prev_out).push(e));
        assert(evs.take(k + 1) =~= evs.take(k as int).push(e));
        assert(start + evs.take(k + 1) =~= (start + evs.take(k as int)).push(e));
        k = k + 1;
    }
    assert(evs.take(k as int) =~= evs);
    let last: i64 = first + space as i64 + cap_height as i64;
    if last < i32::MIN as i64 || last > i32::MAX as i64 {
        return None;
    }
    Some(last as i32)
}

/// How far a segment moves the cursor.
pub open spec fn segment_advance(r: SegmentRaster, cap_height: int) -> int {
    match r {
        SegmentRaster::Text { runs } => runs_advance(runs@),
        SegmentRaster::Emoji { .. } => 2 * spacer(cap_height) + cap_height,
    }
}

/// The events of a segment drawn at the cursor `adv`.
pub open spec fn segment_events(
    r: SegmentRaster,
    x_offset: int,
    adv: int,
    cap_height: int,
    cap_line_y: int,
) -> Seq<Event> {
    match r {
        SegmentRaster::Text { runs } => runs_events(runs@, x_offset, adv),
        SegmentRaster::Emoji { pixels } => emoji_events(
            pixels@,
            cap_height,
            cap_line_y,
            adv + spacer(cap_height) - x_offset,
        ),
    }
}

/// Each event and cursor position of a segment drawn at `adv` fits in an `i32`.
pub open spec fn segment_ok(
    r: SegmentRaster,
    x_offset: int,
    adv: int,
    cap_height: int,
    cap_line_y: int,
) -> bool {
    match r {
        SegmentRaster::Text { runs } => runs_ok(runs@, x_offset, adv),
        SegmentRaster::Emoji { pixels } => emoji_ok(pixels@, cap_height, cap_line_y, x_offset, adv),
    }
}

/// The cursor after the given segments, starting from zero.
pub open spec fn total_advance(rs: Seq<SegmentRaster>, cap_height: int) -> int
    decreases rs.len(),
{
    if rs.len() == 0 {
        0
    } else {
        total_advance(rs.drop_last(), cap_height) + segment_advance(rs.last(), cap_height)
    }
}

/// The pixel stream of a sequence of segments: each is drawn where the previous ones left the
/// cursor.
pub open spec fn layout(
    rs: Seq<SegmentRaster>,
    x_offset: int,
    cap_height: int,
    cap_line_y: int,
) -> Seq<Event>
    decreases rs.len(),
{
    if rs.len() == 0 {
        Seq::empty()
    } else {
        layout(rs.drop_last(), x_offset, cap_height, cap_line_y) + segment_events(
            rs.last(),
            x_offset,
            total_advance(rs.drop_last(), cap_height),
            cap_height,
            cap_line_y,
        )
    }
}

/// Each event and cursor position of the stream fits in an `i32`.
pub open spec fn layout_ok(
    rs: Seq<SegmentRaster>,
    x_offset: int,
    cap_height: int,
    cap_line_y: int,
) -> bool
    decreases rs.len(),
{
    if rs.len() == 0 {
        true
    } else {
        layout_ok(rs.drop_last(), x_offset, cap_height, cap_line_y) && segment_ok(
            rs.last(),
            x_offset,
            total_advance(rs.drop_last(), cap_height),
            cap_height,
            cap_line_y,
        )
    }
}

/// The column shift that puts the first drawn column at zero: the left placement of the first
/// glyph of the first line when the first segment is text and that glyph has a raster, and zero
/// otherwise.
pub open spec fn column_shift(rs: Seq<SegmentRaster>) -> int {
    if rs.len() > 0 {
        match rs[0] {
            SegmentRaster::Text { runs } => {
                if runs@.len() > 0 && runs@[0].glyphs@.len() > 0 {
                    match runs@[0].glyphs@[0].left {
                        Some(l) => l as int,
                        None => 0,
                    }
                } else {
                    0
                }
            },
            _ => 0,
        }
    } else {
        0
    }
}

/// The pixel stream of the segments, or `None` when it cannot be given in `i32` coordinates.
pub open spec fn composed(rs: Seq<SegmentRaster>, cap_height: int, cap_line_y: int) -> Option<
    Seq<Event>,
> {
    if layout_ok(rs, column_shift(rs), cap_height, cap_line_y) {
        Some(layout(rs, column_shift(rs), cap_height, cap_line_y))
    } else {
        None
    }
}

proof fn lemma_layout_ok_prefix(
    rs: Seq<SegmentRaster>,
    k: int,
    x_offset: int,
    cap_height: int,
    cap_line_y: int,
)
    requires
        0 <= k <= rs.len(),
        layout_ok(rs, x_offset, cap_height, cap_line_y),
    ensures
        layout_ok(rs.take(k), x_offset, cap_height, cap_line_y),
    decreases rs.len(),
{
    if k < rs.len() {
        assert(rs.drop_last().take(k) =~= rs.take(k));
        lemma_layout_ok_prefix(rs.drop_last(), k, x_offset, cap_height, cap_line_y);
    } else {
        assert(rs.take(k) =~= rs);
    }
}

/// Lays the rasters of a sequence of segments out on one line and returns the pixel stream, in
/// segment order; `None` when a coordinate or the cursor leaves `i32`.
///
/// The cursor starts at zero. A text segment's lines are drawn at the cursor, which then moves
/// on by each line's width. An emoji is drawn after a gap of a tenth of the capital height,
/// scaled to the capital height and standing on the capital baseline, and the cursor moves on
/// by its side and both gaps. Every column is shifted left by the first glyph's placement when
/// the first segment is text.
pub fn compose(rasters: &Vec<SegmentRaster>, cap_height: u32, cap_line_y: i32) -> (r: Option<
    Vec<Pixel>,
>)
    ensures
        composed(rasters@, cap_height as int, cap_line_y as int) == match r {
            Some(v) => Some(pixels_view(v@)),
            None => None::<Seq<Event>>,
        },
{
    let ghost rs = rasters@;
    let ghost h = cap_height as int;
    let ghost ly = cap_line_y as int;
    let x_offset: i32 = if rasters.len() > 0 {
        match &rasters[0] {
            SegmentRaster::Text { runs } => {
                if runs.len() > 0 && runs[0].glyphs.len() > 0 {
                    match runs[0].glyphs[0].left {
                        Some(l) => l,
                        None => 0,
                    }
                } else {
                    0
                }
            },
            _ => 0,
        }
    } else {
        0
    };
    let ghost xo = x_offset as int;
    assert(xo == column_shift(rs));
    let mut out: Vec<Pixel> = Vec::new();
    let mut cur: i32 = 0;
    let mut i: usize = 0;
    while i < rasters.len()
        invariant
            0 <= i <= rs.len(),
            rs == rasters@,
            h == cap_height as int,
            ly == cap_line_y as int,
            xo == x_offset as int,
            xo == column_shift(rs),
            cur == total_advance(rs.take(i as int), h),
            layout_ok(rs.take(i as int), xo, h, ly),
            pixels_view(out@) == layout(rs.take(i as int), xo, h, ly),
        decreases rs.len() - i,
    {
        let ghost upto = rs.take(i + 1);
        assert(upto.drop_last() =~= rs.take(i as int));
        assert(upto.last() == rasters@[i as int]);
        let step = match &rasters[i] {
            SegmentRaster::Text { runs } => place_runs(runs, x_offset, cur, &mut out),
            SegmentRaster::Emoji { pixels } => place_emoji(
                pixels,
                cap_height,
                cap_line_y,
                x_offset,
                cur,
                &mut out,
            ),
        };
        match step {
            Some(next) => {
                cur = next;
            },
            None => {
                proof {
                    if layout_ok(rs, xo, h, ly) {
                        lemma_layout_ok_prefix(rs, i + 1, xo, h, ly);
                    }
                }
                return None;
            },
        }
        i = i + 1;
    }
    assert(rs.take(i as int) =~= rs);
    Some(out)
}

/// The largest column of the stream, or zero when it is larger.
pub open spec fn max_column(evs: Seq<Event>) -> int
    decreases evs.len(),
{
    if evs.len() == 0 {
        0
    } else {
        let m = max_column(evs.drop_last());
        if evs.last().0 > m {
            evs.last().0
        } else {
            m
        }
    }
}

/// The width that a pixel stream needs: one past its largest column, and at least one.
pub fn pixel_width(pixels: &Vec<Pixel>) -> (r: u32)
    ensures
        r == max_column(pixels_view(pixels@)) + 1,
{
    let ghost evs = pixels_view(pixels@);
    let mut m: i32 = 0;
    let mut i: usize = 0;
    while i < pixels.len()
        invariant
            0 <= i <= pixels@.len(),
            evs == pixels_view(pixels@),
            0 <= m,
            m == max_column(evs.take(i as int)),
        decreases pixels@.len() - i,
    {
        assert(evs.take(i + 1).drop_last() =~= evs.take(i as int));
        assert(evs.take(i + 1).last() == pixel_event(pixels@[i as int]));
        if pixels[i].x > m {
            m = pixels[i].x;
        }
        i = i + 1;
    }
    assert(evs.take(i as int) =~= evs);
    m as u32 + 1
}

/// Every column of a stream lies left of its width, and the width is one past the largest
/// column at or right of zero, or one when there is none.
pub proof fn lemma_width_bounds_stream(evs: Seq<Event>)
    ensures
        forall|i: int| 0 <= i < evs.len() ==> #[trigger] evs[i].0 <= max_column(evs),
        0 <= max_column(evs),
        max_column(evs) == 0 || exists|i: int|
            0 <= i < evs.len() && #[trigger] evs[i].0 == max_column(evs),
    decreases evs.len(),
{
    if evs.len() > 0 {
        let prev = evs.drop_last();
        lemma_width_bounds_stream(prev);
        assert forall|i: int| 0 <= i < evs.len() implies #[trigger] evs[i].0 <= max_column(evs) by {
            if i < prev.len() {
                assert(evs[i] == prev[i]);
            }
        }
        if max_column(evs) != 0 && max_column(evs) == max_column(prev) {
            let j = choose|j: int| 0 <= j < prev.len() && #[trigger] prev[j].0 == max_column(prev);
            assert(evs[j] == prev[j]);
        }
        if max_column(evs) != max_column(prev) {
            assert(evs[evs.len() - 1].0 == max_column(evs));
        }
    }
}

/// For every sequence of segments whose stream can be drawn, the width measured on that stream
/// is one more than every column drawn, and exactly one more than the largest column at or
/// right of zero: a sink that tracks the largest column from zero sees the width minus one.
pub proof fn lemma_width_covers_drawing(rs: Seq<SegmentRaster>, cap_height: int, cap_line_y: int)
    requires
        composed(rs, cap_height, cap_line_y) is Some,
    ensures
        ({
            let evs = composed(rs, cap_height, cap_line_y)->0;
            let width = max_column(evs) + 1;
            &&& forall|i: int| 0 <= i < evs.len() ==> #[trigger] evs[i].0 < width
            &&& 1 <= width
            &&& (width == 1 || exists|i: int|
                0 <= i < evs.len() && #[trigger] evs[i].0 == width - 1)
        }),
{
    lemma_width_bounds_stream(composed(rs, cap_height, cap_line_y)->0);
}

/// Drawing the same segments twice with the same capital metrics gives the same pixel stream,
/// in the same order.
pub proof fn lemma_drawing_repeatable(
    first: Seq<SegmentRaster>,
    second: Seq<SegmentRaster>,
    cap_height: int,
    cap_line_y: int,
)
    requires
        first == second,
    ensures
        composed(first, cap_height, cap_line_y) == composed(second, cap_height, cap_line_y),
{
}

/// The color a glyph is drawn in: its own color where the font gives one, else the fill color.
pub fn glyph_color(own: Option<[u8; 4]>, fill: [u8; 4]) -> (r: [u8; 4])
    ensures
        r == match own {
            Some(c) => c,
            None => fill,
        },
{
    match own {
        Some(c) => c,
        None => fill,
    }
}

/// Cell `k` of a grid `width` cells wide, counted row by row: its column, its row and `k`.
pub open spec fn grid_cell(c: (u32, u32, usize), k: int, width: int) -> bool {
    c.0 as int == k % width && c.1 as int == k / width && c.2 as int == k
}

/// The cells of a `width` by `height` grid, row by row, each as its column, its row and its
/// index in that order.
pub fn pixel_iter(width: u32, height: u32) -> (r: Vec<(u32, u32, usize)>)
    requires
        width as int * height as int <= usize::MAX,
    ensures
        r@.len() == width as int * height as int,
        forall|k: int| 0 <= k < r@.len() ==> grid_cell(#[trigger] r@[k], k, width as int),
{
    let mut cells: Vec<(u32, u32, usize)> = Vec::new();
    let mut y: u32 = 0;
    while y < height
        invariant
            0 <= y <= height,
            width as int * height as int <= usize::MAX,
            cells@.len() == y as int * width as int,
            forall|k: int|
                0 <= k < cells@.len() ==> grid_cell(#[trigger] cells@[k], k, width as int),
        decreases height - y,
    {
        let mut x: u32 = 0;
        while x < width
            invariant
                0 <= x <= width,
                y < height,
                width as int * height as int <= usize::MAX,
                cells@.len() == y as int * width as int + x,
                forall|k: int|
                    0 <= k < cells@.len() ==> grid_cell(#[trigger] cells@[k], k, width as int),
            decreases width - x,
        {
            let ghost k = cells@.len() as int;
            assert(k < width as int * height as int) by (nonlinear_arith)
                requires
                    k == y as int * width as int + x,
                    x < width,
                    y < height,
            ;
            proof {
                lemma_fundamental_div_mod_converse(k, width as int, y as int, x as int);
            }
            let index: usize = cells.len();
            cells.push((x, y, index));
            x = x + 1;
        }
        assert((y + 1) as int * width as int == y as int * width as int + width)
            by (nonlinear_arith);
        y = y + 1;
    }
    assert(height as int * width as int == width as int * height as int) by (nonlinear_arith);
    cells
}

} // verus!
