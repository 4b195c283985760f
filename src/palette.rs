use vstd::prelude::*;

verus! {

/// The base color that a palette entry belongs to. Several hue ranges may
/// share one base color (red sits at both ends of the hue circle).
#[derive(Clone, Copy, PartialEq, Eq, Structural, Debug)]
pub enum BaseColor {
    Red,
    Blue,
    Green,
    Yellow,
    Cyan,
    Magenta,
    Orange,
    Purple,
}

impl BaseColor {
    /// Lowercase tag of the base color.
    pub open spec fn spec_name(self) -> Seq<char> {
        match self {
            BaseColor::Red => seq!['r', 'e', 'd'],
            BaseColor::Blue => seq!['b', 'l', 'u', 'e'],
            BaseColor::Green => seq!['g', 'r', 'e', 'e', 'n'],
            BaseColor::Yellow => seq!['y', 'e', 'l', 'l', 'o', 'w'],
            BaseColor::Cyan => seq!['c', 'y', 'a', 'n'],
            BaseColor::Magenta => seq!['m', 'a', 'g', 'e', 'n', 't', 'a'],
            BaseColor::Orange => seq!['o', 'r', 'a', 'n', 'g', 'e'],
            BaseColor::Purple => seq!['p', 'u', 'r', 'p', 'l', 'e'],
        }
    }

    /// Display color as `#RRGGBB`.
    pub open spec fn spec_display(self) -> Seq<char> {
        match self {
            BaseColor::Red => seq!['#', 'F', 'F', '0', '0', '0', '0'],
            BaseColor::Blue => seq!['#', '0', '0', '0', '0', 'F', 'F'],
            BaseColor::Green => seq!['#', '0', '0', 'F', 'F', '0', '0'],
            BaseColor::Yellow => seq!['#', 'F', 'F', 'F', 'F', '0', '0'],
            BaseColor::Cyan => seq!['#', '0', '0', 'F', 'F', 'F', 'F'],
            BaseColor::Magenta => seq!['#', 'F', 'F', '0', '0', 'F', 'F'],
            BaseColor::Orange => seq!['#', 'F', 'F', 'A', '5', '0', '0'],
            BaseColor::Purple => seq!['#', '8', '0', '0', '0', '8', '0'],
        }
    }

    pub fn name(&self) -> (s: &'static str)
        ensures
            s@ == self.spec_name(),
    {
        match self {
            BaseColor::Red => {
                proof { reveal_strlit("red"); }
                "red"
            },
            BaseColor::Blue => {
                proof { reveal_strlit("blue"); }
                "blue"
            },
            BaseColor::Green => {
                proof { reveal_strlit("green"); }
                "green"
            },
            BaseColor::Yellow => {
                proof { reveal_strlit("yellow"); }
                "yellow"
            },
            BaseColor::Cyan => {
                proof { reveal_strlit("cyan"); }
                "cyan"
            },
            BaseColor::Magenta => {
                proof { reveal_strlit("magenta"); }
                "magenta"
            },
            BaseColor::Orange => {
                proof { reveal_strlit("orange"); }
                "orange"
            },
            BaseColor::Purple => {
                proof { reveal_strlit("purple"); }
                "purple"
            },
        }
    }

    pub fn display_color(&self) -> (s: &'static str)
        ensures
            s@ == self.spec_display(),
    {
        match self {
            BaseColor::Red => {
                proof { reveal_strlit("#FF0000"); }
                "#FF0000"
            },
            BaseColor::Blue => {
                proof { reveal_strlit("#0000FF"); }
                "#0000FF"
            },
            BaseColor::Green => {
                proof { reveal_strlit("#00FF00"); }
                "#00FF00"
            },
            BaseColor::Yellow => {
                proof { reveal_strlit("#FFFF00"); }
                "#FFFF00"
            },
            BaseColor::Cyan => {
                proof { reveal_strlit("#00FFFF"); }
                "#00FFFF"
            },
            BaseColor::Magenta => {
                proof { reveal_strlit("#FF00FF"); }
                "#FF00FF"
            },
            BaseColor::Orange => {
                proof { reveal_strlit("#FFA500"); }
                "#FFA500"
            },
            BaseColor::Purple => {
                proof { reveal_strlit("#800080"); }
                "#800080"
            },
        }
    }
}

/// One palette entry: bounds on half-hue (0..=180), saturation and value
/// (0..=255), and a tolerance in percent that widens the saturation and
/// value bounds (never the hue bounds).
#[derive(Clone, Copy, PartialEq, Eq, Structural, Debug)]
pub struct ColorRange {
    pub lower_h: u8,
    pub upper_h: u8,
    pub lower_s: u8,
    pub upper_s: u8,
    pub lower_v: u8,
    pub upper_v: u8,
    pub tolerance_pct: u8,
    pub base: BaseColor,
}

/// Number of entries in the palette.
pub const PALETTE_LEN: usize = 9;

pub open spec fn entry(lh: u8, uh: u8, tol: u8, base: BaseColor) -> ColorRange {
    ColorRange {
        lower_h: lh,
        upper_h: uh,
        lower_s: 120,
        upper_s: 255,
        lower_v: 100,
        upper_v: 255,
        tolerance_pct: tol,
        base,
    }
}

/// The palette, in its fixed iteration order.
#[verifier::opaque]
pub open spec fn palette() -> Seq<ColorRange> {
    seq![
        entry(0, 15, 12, BaseColor::Red),
        entry(165, 180, 12, BaseColor::Red),
        entry(85, 135, 10, BaseColor::Blue),
        entry(35, 85, 15, BaseColor::Green),
        entry(10, 45, 18, BaseColor::Yellow),
        entry(75, 105, 12, BaseColor::Cyan),
        entry(135, 175, 15, BaseColor::Magenta),
        entry(3, 25, 20, BaseColor::Orange),
        entry(120, 150, 15, BaseColor::Purple),
    ]
}

/// The lookup key of each palette entry: the base color's tag, except for
/// the second red range, keyed `red2`.
pub open spec fn key_of(i: int) -> Seq<char> {
    if i == 1 {
        seq!['r', 'e', 'd', '2']
    } else {
        palette()[i].base.spec_name()
    }
}

/// Every base color is the base of some palette entry.
pub proof fn lemma_palette_covers_bases(b: BaseColor)
    ensures
        exists|i: int| 0 <= i < palette().len() && (#[trigger] palette()[i]).base == b,
{
    reveal(palette);
    match b {
        BaseColor::Red => assert(palette()[0].base == b),
        BaseColor::Blue => assert(palette()[2].base == b),
        BaseColor::Green => assert(palette()[3].base == b),
        BaseColor::Yellow => assert(palette()[4].base == b),
        BaseColor::Cyan => assert(palette()[5].base == b),
        BaseColor::Magenta => assert(palette()[6].base == b),
        BaseColor::Orange => assert(palette()[7].base == b),
        BaseColor::Purple => assert(palette()[8].base == b),
    }
}

fn make_entry(lh: u8, uh: u8, tol: u8, base: BaseColor) -> (r: ColorRange)
    ensures
        r == entry(lh, uh, tol, base),
{
    ColorRange {
        lower_h: lh,
        upper_h: uh,
        lower_s: 120,
        upper_s: 255,
        lower_v: 100,
        upper_v: 255,
        tolerance_pct: tol,
        base,
    }
}

/// The palette of curve colors, in its fixed order.
pub fn get_color_ranges() -> (r: Vec<ColorRange>)
    ensures
        r@ == palette(),
        palette().len() == PALETTE_LEN,
{
    let mut r: Vec<ColorRange> = Vec::new();
    r.push(make_entry(0, 15, 12, BaseColor::Red));
    r.push(make_entry(165, 180, 12, BaseColor::Red));
    r.push(make_entry(85, 135, 10, BaseColor::Blue));
    r.push(make_entry(35, 85, 15, BaseColor::Green));
    r.push(make_entry(10, 45, 18, BaseColor::Yellow));
    r.push(make_entry(75, 105, 12, BaseColor::Cyan));
    r.push(make_entry(135, 175, 15, BaseColor::Magenta));
    r.push(make_entry(3, 25, 20, BaseColor::Orange));
    r.push(make_entry(120, 150, 15, BaseColor::Purple));
    reveal(palette);
    assert(r@ =~= palette());
    r
}

/// The lookup key of palette entry `i`.
pub fn palette_key(i: usize) -> (k: &'static str)
    requires
        i < PALETTE_LEN,
    ensures
        k@ == key_of(i as int),
{
    if i == 1 {
        proof { reveal_strlit("red2"); }
        "red2"
    } else {
        let ranges = get_color_ranges();
        ranges[i].base.name()
    }
}

} // verus!
