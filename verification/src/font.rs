//! Font textures: which characters a font texture holds, and where on the texture
//! each character's glyph goes.  Glyphs are placed left to right in rows, one
//! texel apart, and a new row starts below the tallest glyph of the row before.

use vstd::prelude::*;
use vstd::string::*;

use crate::Error;
use crate::render::{FontHandle, MAX_RAW_HANDLE};
use crate::theme::{find_name, name_position};

verus! {

/// Where a glyph of the given width goes from the cursor (column, row, height of
/// the tallest glyph of the row): after the last glyph of the row, one texel
/// apart, or, if it would reach the right edge, at the start of a new row below
/// the tallest glyph of the row, one texel apart.
pub open spec fn next_position_at(cursor: (nat, nat, nat), width: nat, tex_width: nat) -> (nat, nat) {
    if cursor.0 + width >= tex_width {
        (0, cursor.1 + cursor.2 + 1)
    } else {
        (cursor.0, cursor.1)
    }
}

/// The cursor after placing a glyph of the given size: one texel past its right
/// edge, on its row, with the row's height raised to the glyph's height.
pub open spec fn cursor_after(cursor: (nat, nat, nat), width: nat, height: nat, tex_width: nat) -> (nat, nat, nat) {
    let (x, y) = next_position_at(cursor, width, tex_width);
    let row = if cursor.0 + width >= tex_width { 0 } else { cursor.2 };
    (x + width + 1, y, if height > row { height } else { row })
}

/// An inclusive range of code points.
#[derive(Copy, Clone, Debug, PartialEq, Eq, Structural)]
pub struct CharacterRange {
    pub lower: u32,
    pub upper: u32,
}

/// The ranges of code points a font covers when its definition names none:
/// printable ASCII and the printable part of Latin-1.
pub open spec fn default_font_ranges() -> Seq<CharacterRange> {
    seq![CharacterRange { lower: 32, upper: 126 }, CharacterRange { lower: 161, upper: 255 }]
}

/// The ranges of code points a font covers: those its definition names, or the
/// default ones when it names none.
pub fn font_ranges(characters: &Vec<CharacterRange>) -> (r: Vec<CharacterRange>)
    ensures
        r@ == (if characters@.len() == 0 {
            default_font_ranges()
        } else {
            characters@
        }),
{
    if characters.len() == 0 {
        let r = vec![CharacterRange { lower: 32, upper: 126 }, CharacterRange { lower: 161, upper: 255 }];
        proof {
            assert(r@ =~= default_font_ranges());
        }
        return r;
    }
    let mut r: Vec<CharacterRange> = Vec::new();
    let mut i: usize = 0;
    while i < characters.len()
        invariant
            i <= characters@.len(),
            r@ == characters@.take(i as int),
        decreases characters@.len() - i,
    {
        r.push(characters[i]);
        i = i + 1;
        proof {
            assert(r@ =~= characters@.take(i as int));
        }
    }
    proof {
        assert(characters@.take(characters@.len() as int) =~= characters@);
    }
    r
}

/// The message when a font names a source that is not there.
pub open spec fn missing_font_source_message(source: Seq<char>) -> Seq<char> {
    "Unable to locate font handle "@ + source
}

/// The position of a font's source among the font sources that are there; fails
/// when it is not among them.
pub fn font_source_position(source: &str, sources: &Vec<String>) -> (r: Result<usize, Error>)
    ensures
        match r {
            Ok(i) => name_position(sources@, source@) == Some(i as int),
            Err(e) => name_position(sources@, source@) is None && (e matches Error::Theme(m) && m@
                == missing_font_source_message(source@)),
        },
{
    match find_name(sources, source) {
        Some(i) => Ok(i),
        None => {
            let mut m = String::from_str("Unable to locate font handle ");
            m.append(source);
            Err(Error::Theme(m))
        },
    }
}

/// The definition of a font of a theme: the name of its source and the ranges
/// of code points it covers (none meaning the default ones).
pub struct FontDefinition {
    pub source: String,
    pub characters: Vec<CharacterRange>,
}

/// What registering a font takes: the handle it gets, the position of its source
/// among the font sources, and the ranges of code points it covers.
pub struct FontRegistration {
    pub handle: FontHandle,
    pub source: usize,
    pub ranges: Vec<CharacterRange>,
}

/// The message for the first of the first `n` fonts whose source is not among
/// `sources`, if any.
pub open spec fn font_source_error(defs: Seq<(String, FontDefinition)>, sources: Seq<String>, n: int) -> Option<Seq<char>>
    decreases n,
{
    if n <= 0 {
        None
    } else {
        match font_source_error(defs, sources, n - 1) {
            Some(m) => Some(m),
            None => if name_position(sources, defs[n - 1].1.source@) is Some {
                None
            } else {
                Some(missing_font_source_message(defs[n - 1].1.source@))
            },
        }
    }
}

/// The ranges of code points a font definition covers (see `font_ranges`).
pub open spec fn definition_ranges(def: FontDefinition) -> Seq<CharacterRange> {
    if def.characters@.len() == 0 {
        default_font_ranges()
    } else {
        def.characters@
    }
}

proof fn lemma_font_source_error_stays(defs: Seq<(String, FontDefinition)>, sources: Seq<String>, n: int, m: int)
    requires
        0 <= n <= m,
        font_source_error(defs, sources, n) is Some,
    ensures
        font_source_error(defs, sources, m) == font_source_error(defs, sources, n),
    decreases m - n,
{
    if n < m {
        lemma_font_source_error_stays(defs, sources, n, m - 1);
    }
}

/// Plans the registration of a theme's fonts, in order: the font at position `i`
/// gets the handle `i`, its source is looked up among the font sources, and it
/// covers its own ranges of code points or the default ones.  Fails on the first
/// font whose source is not there.  Registering each font with the renderer, in
/// this order, is left to the caller.
pub fn plan_fonts(defs: &Vec<(String, FontDefinition)>, sources: &Vec<String>) -> (r: Result<Vec<FontRegistration>, Error>)
    requires
        defs@.len() < MAX_RAW_HANDLE || font_source_error(defs@, sources@, MAX_RAW_HANDLE as int) is Some,
    ensures
        match r {
            Ok(regs) => {
                &&& font_source_error(defs@, sources@, defs@.len() as int) is None
                &&& regs@.len() == defs@.len()
                &&& forall|i: int|
                    0 <= i < regs@.len() ==> {
                        &&& (#[trigger] regs@[i]).handle@ == i
                        &&& name_position(sources@, defs@[i].1.source@) == Some(regs@[i].source as int)
                        &&& regs@[i].ranges@ == definition_ranges(defs@[i].1)
                    }
            },
            Err(e) => e matches Error::Theme(m) && font_source_error(defs@, sources@, defs@.len() as int) == Some(m@),
        },
{
    let mut regs: Vec<FontRegistration> = Vec::new();
    let mut i: usize = 0;
    while i < defs.len()
        invariant
            i <= defs@.len(),
            defs@.len() < MAX_RAW_HANDLE || font_source_error(defs@, sources@, MAX_RAW_HANDLE as int) is Some,
            font_source_error(defs@, sources@, i as int) is None,
            regs@.len() == i,
            forall|j: int|
                0 <= j < i ==> {
                    &&& (#[trigger] regs@[j]).handle@ == j
                    &&& name_position(sources@, defs@[j].1.source@) == Some(regs@[j].source as int)
                    &&& regs@[j].ranges@ == definition_ranges(defs@[j].1)
                },
        decreases defs@.len() - i,
    {
        match font_source_position(defs[i].1.source.as_str(), sources) {
            Ok(source) => {
                proof {
                    if i + 1 > MAX_RAW_HANDLE {
                        if defs@.len() >= MAX_RAW_HANDLE {
                            lemma_font_source_none_prefix(defs@, sources@, MAX_RAW_HANDLE as int, i as int);
                        }
                    }
                }
                let ranges = font_ranges(&defs[i].1.characters);
                regs.push(FontRegistration { handle: FontHandle::at(i), source, ranges });
            },
            Err(e) => {
                proof {
                    lemma_font_source_error_stays(defs@, sources@, i + 1, defs@.len() as int);
                }
                return Err(e);
            },
        }
        i = i + 1;
    }
    Ok(regs)
}

proof fn lemma_font_source_none_prefix(defs: Seq<(String, FontDefinition)>, sources: Seq<String>, n: int, m: int)
    requires
        0 <= n <= m,
        font_source_error(defs, sources, m) is None,
    ensures
        font_source_error(defs, sources, n) is None,
    decreases m - n,
{
    if n < m {
        lemma_font_source_none_prefix(defs, sources, n, m - 1);
    }
}

/// Whether `n` is a code point that a `char` can hold: at most 0x10FFFF, and not
/// a surrogate.
pub open spec fn is_scalar_value(n: int) -> bool {
    &&& 0 <= n <= 0x10FFFF
    &&& !(0xD800 <= n <= 0xDFFF)
}

/// `char::from_u32` gives the character whose code point is `n`, or `None` where
/// `n` is a surrogate or beyond the last code point.
#[verifier::external_body]
fn char_from_u32(n: u32) -> (r: Option<char>)
    ensures
        r is Some <==> is_scalar_value(n as int),
        r matches Some(c) ==> c == n as char,
{
    std::char::from_u32(n)
}

/// The characters of the code points from `lower` to `upper`, stopping before the
/// first code point that is no character.
pub open spec fn range_characters(lower: int, upper: int) -> Seq<char>
    decreases upper + 1 - lower,
{
    if lower > upper || !is_scalar_value(lower) {
        Seq::empty()
    } else {
        seq![lower as char] + range_characters(lower + 1, upper)
    }
}

/// The characters of each range in turn.
pub open spec fn ranges_characters(ranges: Seq<CharacterRange>) -> Seq<char>
    decreases ranges.len(),
{
    if ranges.len() == 0 {
        Seq::empty()
    } else {
        ranges_characters(ranges.drop_last()) + range_characters(
            ranges.last().lower as int,
            ranges.last().upper as int,
        )
    }
}

proof fn lemma_range_characters_step(lower: int, upper: int)
    requires
        lower <= upper,
        is_scalar_value(lower),
    ensures
        range_characters(lower, upper) == seq![lower as char] + range_characters(lower + 1, upper),
{
}

/// The characters written to a font texture for the given ranges: the code points
/// of each range in turn, where a range ends early at its first code point that is
/// no character.
pub fn characters_in(ranges: &Vec<CharacterRange>) -> (chars: Vec<char>)
    ensures
        chars@ == ranges_characters(ranges@),
{
    let mut chars: Vec<char> = Vec::new();
    let mut r: usize = 0;
    while r < ranges.len()
        invariant
            r <= ranges@.len(),
            chars@ == ranges_characters(ranges@.take(r as int)),
        decreases ranges@.len() - r,
    {
        let range = ranges[r];
        let ghost start = chars@;
        let mut code: u64 = range.lower as u64;
        let mut done = false;
        while code <= range.upper as u64 && !done
            invariant
                range.lower <= code,
                code <= range.upper as u64 + 1 || code == range.lower,
                chars@ + (if done {
                    Seq::<char>::empty()
                } else {
                    range_characters(code as int, range.upper as int)
                }) == start + range_characters(range.lower as int, range.upper as int),
            decreases range.upper as u64 + 1 - code, (if done { 0int } else { 1int }),
        {
            match char_from_u32(code as u32) {
                None => {
                    done = true;
                    proof {
                        assert(chars@ + Seq::<char>::empty() =~= chars@);
                    }
                },
                Some(c) => {
                    proof {
                        lemma_range_characters_step(code as int, range.upper as int);
                        assert(c == (code as int) as char);
                    }
                    chars.push(c);
                    code = code + 1;
                    proof {
                        assert(chars@ + range_characters(code as int, range.upper as int) =~= start
                            + range_characters(range.lower as int, range.upper as int));
                    }
                },
            }
        }
        proof {
            assert(ranges@.take(r + 1).drop_last() =~= ranges@.take(r as int));
            if !done {
                assert(range_characters(code as int, range.upper as int) == Seq::<char>::empty());
                assert(chars@ + Seq::<char>::empty() =~= chars@);
            }
        }
        r = r + 1;
    }
    proof {
        assert(ranges@.take(ranges@.len() as int) =~= ranges@);
    }
    chars
}

/// The number of code points in the ranges.
pub open spec fn code_point_count(ranges: Seq<CharacterRange>) -> int
    decreases ranges.len(),
{
    if ranges.len() == 0 {
        0
    } else {
        code_point_count(ranges.drop_last()) + (ranges.last().upper - ranges.last().lower + 1)
    }
}

/// Counts the code points in the ranges, from which the texture is sized.  Each
/// range must be in order and the count must fit in a `u32`.
pub fn character_count(ranges: &Vec<CharacterRange>) -> (count: u32)
    requires
        forall|i: int| 0 <= i < ranges@.len() ==> (#[trigger] ranges@[i]).lower <= ranges@[i].upper,
        forall|k: int| 0 <= k <= ranges@.len() ==> code_point_count(#[trigger] ranges@.take(k)) <= u32::MAX,
    ensures
        count == code_point_count(ranges@),
{
    let mut count: u32 = 0;
    let mut i: usize = 0;
    while i < ranges.len()
        invariant
            i <= ranges@.len(),
            forall|j: int| 0 <= j < ranges@.len() ==> (#[trigger] ranges@[j]).lower <= ranges@[j].upper,
            forall|k: int| 0 <= k <= ranges@.len() ==> code_point_count(#[trigger] ranges@.take(k)) <= u32::MAX,
            count == code_point_count(ranges@.take(i as int)),
        decreases ranges@.len() - i,
    {
        let range = ranges[i];
        proof {
            assert(ranges@.take(i + 1).drop_last() =~= ranges@.take(i as int));
            assert(code_point_count(ranges@.take(i + 1)) <= u32::MAX);
        }
        count = count + (range.upper - range.lower + 1);
        i = i + 1;
    }
    proof {
        assert(ranges@.take(ranges@.len() as int) =~= ranges@);
    }
    count
}

/// The place of a glyph on the texture: its top left texel and its size.
pub struct GlyphBox {
    pub x: nat,
    pub y: nat,
    pub width: nat,
    pub height: nat,
}

/// Whether two glyph boxes share no texel.
pub open spec fn disjoint(a: GlyphBox, b: GlyphBox) -> bool {
    ||| a.x + a.width <= b.x
    ||| b.x + b.width <= a.x
    ||| a.y + a.height <= b.y
    ||| b.y + b.height <= a.y
}

/// Whether the glyph boxes lie inside a texture of the given size and share no
/// texel with each other.
pub open spec fn boxes_placed(boxes: Seq<GlyphBox>, tex_width: nat, tex_height: nat) -> bool {
    &&& forall|i: int|
        0 <= i < boxes.len() ==> (#[trigger] boxes[i]).x + boxes[i].width < tex_width && boxes[i].y
            + boxes[i].height < tex_height
    &&& forall|i: int, j: int|
        0 <= i < boxes.len() && 0 <= j < boxes.len() && i != j ==> disjoint(
            #[trigger] boxes[i],
            #[trigger] boxes[j],
        )
}

/// Two texels of glyphs that share no texel are at different places in the
/// texture's data, so writing one glyph never overwrites another.
pub proof fn lemma_disjoint_glyph_texels(
    a: GlyphBox,
    b: GlyphBox,
    tex_width: nat,
    px: nat,
    py: nat,
    qx: nat,
    qy: nat,
)
    requires
        disjoint(a, b),
        a.x + a.width < tex_width,
        b.x + b.width < tex_width,
        a.x <= px < a.x + a.width,
        a.y <= py < a.y + a.height,
        b.x <= qx < b.x + b.width,
        b.y <= qy < b.y + b.height,
    ensures
        px + py * tex_width != qx + qy * tex_width,
{
    if py != qy {
        assert(px + py * tex_width != qx + qy * tex_width) by (nonlinear_arith)
            requires
                px < tex_width,
                qx < tex_width,
                py != qy,
        ;
    }
}

/// Writes the glyphs of a font onto a texture of one byte per texel.
pub struct FontTextureWriter {
    tex_x: u32,
    tex_y: u32,
    max_row_height: u32,
    tex_width: u32,
    tex_height: u32,
    data: Vec<u8>,
    placed: Ghost<Seq<GlyphBox>>,
}

impl FontTextureWriter {
    /// Whether the writer is consistent: the texture holds a byte for each texel,
    /// every glyph placed lies inside it and no two share a texel, and each glyph
    /// lies either above the current row or in it, left of the next position.
    pub closed spec fn well_formed(&self) -> bool {
        &&& self.data@.len() == self.tex_width * self.tex_height
        &&& self.tex_x <= self.tex_width
        &&& (self.max_row_height == 0 || self.tex_y + self.max_row_height < self.tex_height)
        &&& boxes_placed(self.placed@, self.tex_width as nat, self.tex_height as nat)
        &&& forall|i: int|
            0 <= i < self.placed@.len() ==> {
                ||| (#[trigger] self.placed@[i]).y + self.placed@[i].height < self.tex_y
                ||| (self.placed@[i].y == self.tex_y && self.placed@[i].height <= self.max_row_height
                    && self.placed@[i].x + self.placed@[i].width < self.tex_x)
            }
    }

    /// The glyph boxes placed so far, in order.
    pub closed spec fn boxes(&self) -> Seq<GlyphBox> {
        self.placed@
    }

    /// The width of the texture in texels.
    pub closed spec fn width_spec(&self) -> nat {
        self.tex_width as nat
    }

    /// The height of the texture in texels.
    pub closed spec fn height_spec(&self) -> nat {
        self.tex_height as nat
    }

    /// The texels of the texture, row by row.
    pub closed spec fn texels(&self) -> Seq<u8> {
        self.data@
    }

    /// Where the next glyph goes, as (column, row, height of the tallest glyph of
    /// the current row).
    pub closed spec fn cursor(&self) -> (nat, nat, nat) {
        (self.tex_x as nat, self.tex_y as nat, self.max_row_height as nat)
    }

    /// Where the next glyph of the given width goes (see `next_position_at`).
    pub open spec fn next_position(&self, width: nat) -> (nat, nat) {
        next_position_at(self.cursor(), width, self.width_spec())
    }

    /// Whether a glyph of the given size fits at its next position.
    pub open spec fn fits_spec(&self, width: nat, height: nat) -> bool {
        let (x, y) = self.next_position(width);
        &&& x + width < self.width_spec()
        &&& y + height < self.height_spec()
    }

    /// An empty texture of the given size, all of whose texels are zero.
    pub fn new(tex_width: u32, tex_height: u32) -> (w: FontTextureWriter)
        requires
            tex_width * tex_height <= usize::MAX,
        ensures
            w.well_formed(),
            w.boxes() == Seq::<GlyphBox>::empty(),
            w.cursor() == (0nat, 0nat, 0nat),
            w.width_spec() == tex_width,
            w.height_spec() == tex_height,
            w.texels() == Seq::new((tex_width * tex_height) as nat, |i: int| 0u8),
    {
        let size = (tex_width as u64 * tex_height as u64) as usize;
        let data = vec![0u8; size];
        proof {
            assert(data@ =~= Seq::new((tex_width * tex_height) as nat, |i: int| 0u8));
        }
        FontTextureWriter {
            tex_x: 0,
            tex_y: 0,
            max_row_height: 0,
            tex_width,
            tex_height,
            data,
            placed: Ghost(Seq::empty()),
        }
    }

    /// The width of the texture in texels.
    pub fn tex_width(&self) -> (r: u32)
        ensures
            r == self.width_spec(),
    {
        self.tex_width
    }

    /// The height of the texture in texels.
    pub fn tex_height(&self) -> (r: u32)
        ensures
            r == self.height_spec(),
    {
        self.tex_height
    }

    /// Whether a glyph of the given size fits at its next position.
    pub fn fits(&self, width: u32, height: u32) -> (r: bool)
        requires
            self.well_formed(),
        ensures
            r == self.fits_spec(width as nat, height as nat),
    {
        let (x, y): (u64, u64) = if self.tex_x as u64 + width as u64 >= self.tex_width as u64 {
            (0, self.tex_y as u64 + self.max_row_height as u64 + 1)
        } else {
            (self.tex_x as u64, self.tex_y as u64)
        };
        x + (width as u64) < self.tex_width as u64 && y + (height as u64) < self.tex_height as u64
    }

    /// Places a glyph of the given size at its next position, and returns that
    /// position.  Every glyph placed lies inside the texture, and no two glyphs
    /// share a texel.
    pub fn place(&mut self, width: u32, height: u32) -> (pos: (u32, u32))
        requires
            old(self).well_formed(),
            old(self).fits_spec(width as nat, height as nat),
        ensures
            final(self).well_formed(),
            (pos.0 as nat, pos.1 as nat) == old(self).next_position(width as nat),
            final(self).cursor() == cursor_after(old(self).cursor(), width as nat, height as nat, old(self).width_spec()),
            final(self).boxes() == old(self).boxes().push(
                GlyphBox { x: pos.0 as nat, y: pos.1 as nat, width: width as nat, height: height as nat },
            ),
            boxes_placed(final(self).boxes(), final(self).width_spec(), final(self).height_spec()),
            final(self).width_spec() == old(self).width_spec(),
            final(self).height_spec() == old(self).height_spec(),
            final(self).texels() == old(self).texels(),
    {
        let ghost old_boxes = self.placed@;
        if self.tex_x as u64 + width as u64 >= self.tex_width as u64 {
            self.tex_x = 0;
            self.tex_y = self.tex_y + self.max_row_height + 1;
            self.max_row_height = 0;
        }
        let x = self.tex_x;
        let y = self.tex_y;
        let ghost new_box = GlyphBox { x: x as nat, y: y as nat, width: width as nat, height: height as nat };
        let max_row_height = if height > self.max_row_height {
            height
        } else {
            self.max_row_height
        };
        let boxes: Ghost<Seq<GlyphBox>> = Ghost(old_boxes.push(new_box));
        proof {
            let b = boxes@;
            assert forall|i: int, j: int|
                0 <= i < b.len() && 0 <= j < b.len() && i != j implies disjoint(
                    #[trigger] b[i],
                    #[trigger] b[j],
                ) by {
                if i < old_boxes.len() && j < old_boxes.len() {
                    assert(disjoint(old_boxes[i], old_boxes[j]));
                } else if i < old_boxes.len() {
                    assert(b[j] == new_box);
                } else {
                    assert(b[i] == new_box);
                }
            }
        }
        self.max_row_height = max_row_height;
        self.tex_x = x + width + 1;
        self.placed = boxes;
        (x, y)
    }

    /// Sets the texel at column `x` and row `y` of the texture to `value`.
    pub fn set_texel(&mut self, x: u32, y: u32, value: u8)
        requires
            old(self).well_formed(),
            x < old(self).width_spec(),
            y < old(self).height_spec(),
        ensures
            final(self).well_formed(),
            final(self).texels() == old(self).texels().update(x + y * old(self).width_spec(), value),
            final(self).boxes() == old(self).boxes(),
            final(self).cursor() == old(self).cursor(),
            final(self).width_spec() == old(self).width_spec(),
            final(self).height_spec() == old(self).height_spec(),
    {
        let len = self.data.len();
        proof {
            assert(x + y * self.tex_width < self.tex_width * self.tex_height) by (nonlinear_arith)
                requires
                    x < self.tex_width,
                    y < self.tex_height,
            ;
            assert(y * self.tex_width <= x + y * self.tex_width) by (nonlinear_arith)
                requires
                    y >= 0,
                    self.tex_width >= 0,
            ;
        }
        let index = x as usize + y as usize * self.tex_width as usize;
        self.data.set(index, value);
    }

    /// The texels of the texture, row by row.
    pub fn into_data(self) -> (data: Vec<u8>)
        requires
            self.well_formed(),
        ensures
            data@ == self.texels(),
    {
        self.data
    }
}

} // verus!
