use vstd::prelude::*;

verus! {

/// Which bundled fonts are searched first for a character.
#[derive(Debug, Clone, Copy, PartialEq, Eq, Structural)]
pub enum FontOrder {
    SansFirst,
    SerifFirst,
}

impl Default for FontOrder {
    fn default() -> (r: FontOrder)
        ensures
            r == FontOrder::SansFirst,
    {
        FontOrder::SansFirst
    }
}

/// The fonts in the order in which they are loaded, which is the order in which they are
/// searched: the caller's fonts, then the bundled sans and serif fonts in the chosen order,
/// then the other bundled fonts.
pub open spec fn load_order<T>(
    order: FontOrder,
    pre: Seq<T>,
    sans: Seq<T>,
    serif: Seq<T>,
    rest: Seq<T>,
) -> Seq<T> {
    match order {
        FontOrder::SansFirst => pre + sans + serif + rest,
        FontOrder::SerifFirst => pre + serif + sans + rest,
    }
}

/// Puts the caller's fonts and the bundled catalogs in the order in which they are loaded.
pub fn font_load_order<T>(
    order: FontOrder,
    pre: Vec<T>,
    sans: Vec<T>,
    serif: Vec<T>,
    rest: Vec<T>,
) -> (r: Vec<T>)
    ensures
        r@ == load_order(order, pre@, sans@, serif@, rest@),
{
    let mut all = pre;
    let mut sans = sans;
    let mut serif = serif;
    let mut rest = rest;
    match order {
        FontOrder::SansFirst => {
            all.append(&mut sans);
            all.append(&mut serif);
        },
        FontOrder::SerifFirst => {
            all.append(&mut serif);
            all.append(&mut sans);
        },
    }
    all.append(&mut rest);
    all
}

/// The fonts and the locale that a drawing context is built with.
pub struct FontCollection {
    pub fonts: Vec<Vec<u8>>,
    pub locale: String,
}

/// Settings for a new drawing context: the font order, fonts of the caller's own to search
/// before the bundled ones, and the locale used for shaping.
#[derive(Debug)]
pub struct DrawingContextBuilder {
    font_order: FontOrder,
    pre_fonts: Option<Vec<Vec<u8>>>,
    locale: String,
}

impl Default for DrawingContextBuilder {
    fn default() -> (r: DrawingContextBuilder)
        ensures
            r.spec_font_order() == FontOrder::SansFirst,
            r.spec_pre_fonts() is None,
            r.spec_locale() == seq!['e', 'n'],
    {
        proof {
            reveal_strlit("en");
        }
        DrawingContextBuilder {
            font_order: FontOrder::SansFirst,
            pre_fonts: None,
            locale: String::from_str("en"),
        }
    }
}

impl DrawingContextBuilder {
    pub closed spec fn spec_font_order(&self) -> FontOrder {
        self.font_order
    }

    pub closed spec fn spec_pre_fonts(&self) -> Option<Seq<Vec<u8>>> {
        match self.pre_fonts {
            Some(v) => Some(v@),
            None => None,
        }
    }

    pub closed spec fn spec_locale(&self) -> Seq<char> {
        self.locale@
    }

    /// Sets the font order.
    pub fn font_order(self, font_order: FontOrder) -> (r: DrawingContextBuilder)
        ensures
            r.spec_font_order() == font_order,
            r.spec_pre_fonts() == self.spec_pre_fonts(),
            r.spec_locale() == self.spec_locale(),
    {
        DrawingContextBuilder { font_order, pre_fonts: self.pre_fonts, locale: self.locale }
    }

    /// Sets fonts of the caller's own, searched before the bundled ones.
    pub fn pre_fonts(self, pre_fonts: Vec<Vec<u8>>) -> (r: DrawingContextBuilder)
        ensures
            r.spec_font_order() == self.spec_font_order(),
            r.spec_pre_fonts() == Some(pre_fonts@),
            r.spec_locale() == self.spec_locale(),
    {
        DrawingContextBuilder {
            font_order: self.font_order,
            pre_fonts: Some(pre_fonts),
            locale: self.locale,
        }
    }

    /// Sets the locale used for shaping.
    pub fn locale(self, locale: &str) -> (r: DrawingContextBuilder)
        ensures
            r.spec_font_order() == self.spec_font_order(),
            r.spec_pre_fonts() == self.spec_pre_fonts(),
            r.spec_locale() == locale@,
    {
        DrawingContextBuilder {
            font_order: self.font_order,
            pre_fonts: self.pre_fonts,
            locale: String::from_str(locale),
        }
    }

    /// The fonts to load, in search order, given the bundled catalogs, and the locale.
    pub fn into_collection(self, sans: Vec<Vec<u8>>, serif: Vec<Vec<u8>>, rest: Vec<Vec<u8>>) -> (r:
        FontCollection)
        ensures
            r.fonts@ == load_order(
                self.spec_font_order(),
                match self.spec_pre_fonts() {
                    Some(p) => p,
                    None => Seq::empty(),
                },
                sans@,
                serif@,
                rest@,
            ),
            r.locale@ == self.spec_locale(),
    {
        let pre = match self.pre_fonts {
            Some(p) => p,
            None => Vec::new(),
        };
        let fonts = font_load_order(self.font_order, pre, sans, serif, rest);
        FontCollection { fonts, locale: self.locale }
    }
}

/// Bit pattern of the default font size, twelve.
pub const DEFAULT_FONT_SIZE_BITS: u32 = 0x4140_0000;

/// Bit pattern of the default line height, fifty.
pub const DEFAULT_LINE_HEIGHT_BITS: u32 = 0x4248_0000;

/// The settings that a drawing uses: font size and line height, as the bit patterns of the
/// numbers, and the fill color.
#[derive(Debug, Clone, Copy)]
pub struct DrawSettings {
    pub font_size: u32,
    pub line_height: u32,
    pub color: [u8; 4],
}

impl DrawSettings {
    /// Font size twelve, line height fifty, opaque black.
    pub fn new() -> (r: DrawSettings)
        ensures
            r.font_size == DEFAULT_FONT_SIZE_BITS,
            r.line_height == DEFAULT_LINE_HEIGHT_BITS,
            r.color == [0u8, 0u8, 0u8, 255u8],
    {
        DrawSettings {
            font_size: DEFAULT_FONT_SIZE_BITS,
            line_height: DEFAULT_LINE_HEIGHT_BITS,
            color: [0, 0, 0, 255],
        }
    }

    /// Sets the font size, and the line height to the same value.
    pub fn font_size(&mut self, font_size: u32)
        ensures
            final(self).font_size == font_size,
            final(self).line_height == font_size,
            final(self).color == old(self).color,
    {
        self.font_size = font_size;
        self.line_height = font_size;
    }

    /// Sets the fill color.
    pub fn rgba(&mut self, r: u8, g: u8, b: u8, a: u8)
        ensures
            final(self).color == [r, g, b, a],
            final(self).font_size == old(self).font_size,
            final(self).line_height == old(self).line_height,
    {
        self.color = [r, g, b, a];
    }

    /// Sets an opaque fill color.
    pub fn rgb(&mut self, r: u8, g: u8, b: u8)
        ensures
            final(self).color == [r, g, b, 255u8],
            final(self).font_size == old(self).font_size,
            final(self).line_height == old(self).line_height,
    {
        self.rgba(r, g, b, 255);
    }

    /// The key under which the capital metrics of these settings are cached.
    pub fn metrics_key(&self) -> (r: (u32, u32))
        ensures
            r == (self.font_size, self.line_height),
    {
        (self.font_size, self.line_height)
    }
}

} // verus!
