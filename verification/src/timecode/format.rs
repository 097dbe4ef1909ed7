//! The timecode formats and their nominal parameters.

use vstd::prelude::*;
use vstd::string::*;

use crate::ieee::single;
use crate::ieee::single::Single;
use crate::text;

verus! {

/// Supported timecode formats. All of them carry a stereo quadrature sine; only
/// its frequency matters to relative mode.
#[derive(Clone, Copy, Debug, PartialEq, Eq, Structural)]
pub enum Format {
    /// Serato Control Vinyl, second edition.
    SeratoCv02,
    /// The first Traktor Scratch pressing.
    TraktorMk1,
    /// Traktor Scratch MK2.
    TraktorMk2,
}

/// The nominal carrier in hertz.
pub open spec fn carrier(f: Format) -> nat {
    match f {
        Format::SeratoCv02 => 1000,
        Format::TraktorMk1 => 2000,
        Format::TraktorMk2 => 2500,
    }
}

/// The canonical name of a format on the command line.
pub open spec fn canonical_name(f: Format) -> Seq<char> {
    match f {
        Format::SeratoCv02 => "serato-cv02"@,
        Format::TraktorMk1 => "traktor-mk1"@,
        Format::TraktorMk2 => "traktor-mk2"@,
    }
}

/// The names by which a format goes on the command line.
pub open spec fn is_name_of(s: Seq<char>, f: Format) -> bool {
    s == canonical_name(f) || match f {
        Format::SeratoCv02 => s == "serato"@ || s == "cv02"@,
        Format::TraktorMk1 => s == "mk1"@,
        Format::TraktorMk2 => s == "mk2"@,
    }
}

/// No name belongs to two formats.
pub proof fn law_names_are_distinct(s: Seq<char>, f: Format, g: Format)
    requires
        is_name_of(s, f),
        is_name_of(s, g),
    ensures
        f == g,
{
    reveal_strlit("serato-cv02");
    reveal_strlit("serato");
    reveal_strlit("cv02");
    reveal_strlit("traktor-mk1");
    reveal_strlit("mk1");
    reveal_strlit("traktor-mk2");
    reveal_strlit("mk2");
    assert("serato-cv02"@[0] == 's' && "traktor-mk1"@[0] == 't' && "traktor-mk2"@[0] == 't');
    assert("traktor-mk1"@[10] == '1' && "traktor-mk2"@[10] == '2');
    assert("mk1"@[2] == '1' && "mk2"@[2] == '2');
}

/// The canonical name of a format names that format and no other.
pub proof fn law_canonical_name_goes_back(f: Format, g: Format)
    ensures
        is_name_of(canonical_name(f), g) <==> f == g,
{
    if is_name_of(canonical_name(f), g) {
        law_names_are_distinct(canonical_name(f), f, g);
    }
}

/// The name "traktor" alone, which would leave the generation open, is nobody's.
pub proof fn law_bare_traktor_names_nothing(f: Format)
    ensures
        !is_name_of("traktor"@, f),
{
    reveal_strlit("traktor");
    reveal_strlit("serato-cv02");
    reveal_strlit("serato");
    reveal_strlit("cv02");
    reveal_strlit("traktor-mk1");
    reveal_strlit("mk1");
    reveal_strlit("traktor-mk2");
    reveal_strlit("mk2");
    assert("traktor"@.len() == 7 && "serato-cv02"@.len() == 11 && "serato"@.len() == 6
        && "cv02"@.len() == 4 && "traktor-mk1"@.len() == 11 && "mk1"@.len() == 3
        && "traktor-mk2"@.len() == 11 && "mk2"@.len() == 3);
}

impl Format {
    /// Nominal carrier frequency in hertz.
    pub fn carrier_hz(self) -> (r: Single)
        ensures
            r == single::from_int(carrier(self)),
    {
        match self {
            Format::SeratoCv02 => Single::from_u64(1000),
            Format::TraktorMk1 => Single::from_u64(2000),
            Format::TraktorMk2 => Single::from_u64(2500),
        }
    }

    /// Length of the position code in bits.
    pub fn position_bits(self) -> (r: u32)
        ensures
            r == if self == Format::SeratoCv02 {
                20u32
            } else {
                23u32
            },
    {
        match self {
            Format::SeratoCv02 => 20,
            Format::TraktorMk1 | Format::TraktorMk2 => 23,
        }
    }

    /// Length of side A in bits.
    pub fn side_a_bits(self) -> (r: u32)
        ensures
            r == if self == Format::SeratoCv02 {
                712_000u32
            } else {
                1_500_000u32
            },
    {
        match self {
            Format::SeratoCv02 => 712_000,
            Format::TraktorMk1 | Format::TraktorMk2 => 1_500_000,
        }
    }

    /// The format that a command-line argument names, if any. Names are case
    /// sensitive.
    pub fn from_cli_arg(s: &str) -> (r: Option<Self>)
        ensures
            forall|f: Format| r == Some(f) <==> is_name_of(s@, f),
            r is None <==> forall|f: Format| !is_name_of(s@, f),
    {
        let r = if text::same(s, "serato-cv02") || text::same(s, "serato") || text::same(s, "cv02") {
            Some(Format::SeratoCv02)
        } else if text::same(s, "traktor-mk1") || text::same(s, "mk1") {
            Some(Format::TraktorMk1)
        } else if text::same(s, "traktor-mk2") || text::same(s, "mk2") {
            Some(Format::TraktorMk2)
        } else {
            None
        };
        proof {
            match r {
                Some(f) => {
                    assert(is_name_of(s@, f));
                    assert forall|g: Format| r == Some(g) <==> is_name_of(s@, g) by {
                        if is_name_of(s@, g) {
                            law_names_are_distinct(s@, f, g);
                        }
                    }
                },
                None => {},
            }
        }
        r
    }

    /// The canonical name on the command line.
    pub fn cli_name(self) -> (r: &'static str)
        ensures
            r@ == canonical_name(self),
    {
        match self {
            Format::SeratoCv02 => "serato-cv02",
            Format::TraktorMk1 => "traktor-mk1",
            Format::TraktorMk2 => "traktor-mk2",
        }
    }
}

} // verus!
