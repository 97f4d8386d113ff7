//! The values that the command-line options accept.

use vstd::prelude::*;
use crate::palette::valid_bpp;
use crate::names::{lower, to_lower};
use crate::params::{DirParameters, Expectations};

verus! {

/// Why the command line is refused.
#[derive(Clone, Copy, Debug, PartialEq, Eq, Structural)]
pub enum ArgError {
    /// An option is followed by another option, or ends the line, without its value.
    MissingValue,
    InvalidWidth,
    InvalidHeight,
    InvalidAlignment,
    InvalidBpp,
    InvalidOffset,
}

/// The value of a run of decimal digits.
pub open spec fn digits_value(s: Seq<char>) -> nat
    decreases s.len(),
{
    if s.len() == 0 {
        0
    } else {
        digits_value(s.drop_last()) * 10 + (s.last() as nat - '0' as nat) as nat
    }
}

/// An unsigned decimal number: an optional `+`, then one or more digits.
pub open spec fn decimal(s: Seq<char>) -> Option<nat> {
    let t = if s.len() > 0 && s[0] == '+' {
        s.drop_first()
    } else {
        s
    };
    if t.len() > 0 && forall|i: int| 0 <= i < t.len() ==> '0' <= #[trigger] t[i] <= '9' {
        Some(digits_value(t))
    } else {
        None
    }
}

/// Relies on `str::parse::<usize>`: it accepts an optional `+` followed by
/// decimal digits whose value fits in a `usize`, and refuses anything else.
#[verifier::external_body]
fn parse_usize(s: &str) -> (r: Option<usize>)
    ensures
        r == match decimal(s@) {
            Some(v) => if v <= usize::MAX {
                Some(v as usize)
            } else {
                None
            },
            None => None,
        },
{
    s.parse::<usize>().ok()
}


/// Whether two strings hold the same characters.
fn same_text(a: &str, b: &str) -> (r: bool)
    ensures
        r == (a@ == b@),
{
    let n = a.unicode_len();
    if n != b.unicode_len() {
        return false;
    }
    for i in 0..n
        invariant
            n == a@.len() == b@.len(),
            forall|j: int| 0 <= j < i ==> a@[j] == b@[j],
    {
        if a.get_char(i) != b.get_char(i) {
            return false;
        }
    }
    assert(a@ =~= b@);
    true
}

/// The alignment that a keyword of the alignment option names, and whether
/// it makes the entry a vapor placeholder.
pub open spec fn keyword_alignment(arg: Seq<char>) -> Option<(usize, bool)> {
    if arg == "tb"@ || arg == "tilebase"@ || arg == "bm"@ || arg == "bitmap"@ {
        Some((2048, false))
    } else if arg == "mb"@ || arg == "mapbase"@ {
        Some((512, true))
    } else if arg == "sp"@ || arg == "sprite"@ {
        Some((32, false))
    } else {
        None
    }
}

/// Tile and bitmap bases align to 2048 bytes, map bases to 512 (and only
/// reserve space), sprites to 32; any other word is no keyword.
pub fn alignment_keyword(arg: &str) -> (r: Option<(usize, bool)>)
    ensures
        r == keyword_alignment(arg@),
{
    if same_text(arg, "tb") || same_text(arg, "tilebase") || same_text(arg, "bm") || same_text(arg, "bitmap") {
        Some((2048, false))
    } else if same_text(arg, "mb") || same_text(arg, "mapbase") {
        Some((512, true))
    } else if same_text(arg, "sp") || same_text(arg, "sprite") {
        Some((32, false))
    } else {
        None
    }
}

/// Whether the bits-per-pixel option accepts `n`.
pub fn accepts_bpp(n: u8) -> (r: bool)
    ensures
        r == valid_bpp(n),
{
    n == 1 || n == 2 || n == 4 || n == 8
}

/// Whether the palette-offset option accepts `n`: a band from 1 to 15.
pub fn accepts_offset(n: usize) -> (r: bool)
    ensures
        r == (1 <= n <= 15),
{
    1 <= n && n <= 15
}

/// The settings of one entry of the command line, the path as characters.
pub struct DirSettings {
    pub width: usize,
    pub height: usize,
    pub alignment: usize,
    pub bpp: u8,
    pub palette_offset: Option<usize>,
    pub no_output: bool,
    pub vapor: bool,
    pub path: Seq<char>,
}

pub open spec fn settings(d: DirParameters) -> DirSettings {
    DirSettings {
        width: d.width,
        height: d.height,
        alignment: d.alignment,
        bpp: d.bpp,
        palette_offset: d.palette_offset,
        no_output: d.no_output,
        vapor: d.vapor,
        path: d.path@,
    }
}

/// Settings with nothing given.
pub open spec fn fresh() -> DirSettings {
    DirSettings {
        width: 0,
        height: 0,
        alignment: 0,
        bpp: 0,
        palette_offset: None,
        no_output: false,
        vapor: false,
        path: Seq::empty(),
    }
}

pub open spec fn expecting_nothing() -> Expectations {
    Expectations { width: false, height: false, file: false, alignment: false, bpp: false, offset: false }
}

pub open spec fn expecting_file() -> Expectations {
    Expectations { file: true, ..expecting_nothing() }
}

/// Whether an option still waits for its value.
pub open spec fn awaits_value(e: Expectations) -> bool {
    e.width || e.height || e.alignment || e.bpp || e.offset
}

/// A number as the options read it: decimal and within a `usize`.
pub open spec fn number(a: Seq<char>) -> Option<usize> {
    match decimal(a) {
        Some(v) => if v <= usize::MAX {
            Some(v as usize)
        } else {
            None
        },
        None => None,
    }
}

/// The entries read from the arguments `args`, given those read so far, the
/// settings being gathered and what the parser waits for. Options are
/// matched without regard to case; a path ends an entry.
pub open spec fn parse_rest(
    args: Seq<Seq<char>>,
    dirs: Seq<DirSettings>,
    p: DirSettings,
    e: Expectations,
) -> Result<Seq<DirSettings>, ArgError>
    decreases args.len(),
{
    if args.len() == 0 {
        if awaits_value(e) {
            Err(ArgError::MissingValue)
        } else if e.file {
            Ok(dirs.push(DirSettings { path: "./"@, ..p }))
        } else {
            Ok(dirs)
        }
    } else {
        let a = lower(args[0]);
        let rest = args.drop_first();
        if a.len() > 0 && a[0] == '-' && awaits_value(e) {
            Err(ArgError::MissingValue)
        } else if a == "-w"@ || a == "-width"@ {
            parse_rest(rest, dirs, p, Expectations { width: true, ..e })
        } else if a == "-h"@ || a == "-height"@ {
            parse_rest(rest, dirs, p, Expectations { height: true, ..e })
        } else if a == "-a"@ || a == "-alignment"@ {
            parse_rest(rest, dirs, p, Expectations { alignment: true, ..e })
        } else if a == "-b"@ || a == "-bpp"@ {
            parse_rest(rest, dirs, p, Expectations { bpp: true, ..e })
        } else if a == "-p"@ || a == "-paletteoffset"@ {
            parse_rest(rest, dirs, p, Expectations { offset: true, ..e })
        } else if a == "-n"@ || a == "-nooutput"@ {
            parse_rest(rest, dirs, DirSettings { no_output: true, ..p }, e)
        } else if e.width {
            match number(a) {
                Some(n) => parse_rest(rest, dirs, DirSettings { width: n, ..p }, expecting_file()),
                None => Err(ArgError::InvalidWidth),
            }
        } else if e.height {
            match number(a) {
                Some(n) => parse_rest(rest, dirs, DirSettings { height: n, ..p }, expecting_file()),
                None => Err(ArgError::InvalidHeight),
            }
        } else if e.alignment {
            match keyword_alignment(a) {
                Some((al, v)) => parse_rest(
                    rest,
                    dirs,
                    DirSettings { alignment: al, vapor: p.vapor || v, ..p },
                    expecting_file(),
                ),
                None => match number(a) {
                    Some(n) => parse_rest(rest, dirs, DirSettings { alignment: n, ..p }, expecting_file()),
                    None => Err(ArgError::InvalidAlignment),
                },
            }
        } else if e.bpp {
            match number(a) {
                Some(n) => if n <= 255 && valid_bpp(n as u8) {
                    parse_rest(rest, dirs, DirSettings { bpp: n as u8, ..p }, expecting_file())
                } else {
                    Err(ArgError::InvalidBpp)
                },
                None => Err(ArgError::InvalidBpp),
            }
        } else if e.offset {
            match number(a) {
                Some(n) => if 1 <= n <= 15 {
                    parse_rest(rest, dirs, DirSettings { palette_offset: Some(n), ..p }, expecting_file())
                } else {
                    Err(ArgError::InvalidOffset)
                },
                None => Err(ArgError::InvalidOffset),
            }
        } else {
            parse_rest(rest, dirs.push(DirSettings { path: a, ..p }), fresh(), expecting_nothing())
        }
    }
}

/// The entries that a command line (program name first) asks for: the
/// current directory where it has no argument.
pub open spec fn parse_spec(args: Seq<Seq<char>>) -> Result<Seq<DirSettings>, ArgError> {
    if args.len() == 1 {
        Ok(seq![DirSettings { alignment: 1, path: "./"@, ..fresh() }])
    } else if args.len() == 0 {
        parse_rest(args, Seq::empty(), fresh(), expecting_file())
    } else {
        parse_rest(args.drop_first(), Seq::empty(), fresh(), expecting_file())
    }
}

pub open spec fn all_settings(v: Seq<DirParameters>) -> Seq<DirSettings> {
    v.map_values(|d: DirParameters| settings(d))
}

pub open spec fn arg_texts(args: Seq<String>) -> Seq<Seq<char>> {
    args.map_values(|s: String| s@)
}

/// Reads the command line (program name first) into one entry per path
/// given, each with the options given before it; options left at the end
/// make an entry for the current directory.
pub fn parse_args(args: &Vec<String>) -> (r: Result<Vec<DirParameters>, ArgError>)
    ensures
        match r {
            Ok(v) => parse_spec(arg_texts(args@)) == Ok::<Seq<DirSettings>, ArgError>(all_settings(v@)),
            Err(e) => parse_spec(arg_texts(args@)) == Err::<Seq<DirSettings>, ArgError>(e),
        },
{
    let ghost texts = arg_texts(args@);
    let mut directories: Vec<DirParameters> = Vec::new();
    if args.len() == 1 {
        directories.push(DirParameters::current_dir());
        assert(all_settings(directories@) =~= seq![DirSettings { alignment: 1, path: "./"@, ..fresh() }]);
        return Ok(directories);
    }
    let mut params = DirParameters::new();
    let mut expect = Expectations::new();
    expect.expect_file();
    let mut i: usize = if args.len() == 0 {
        0
    } else {
        1
    };
    assert(texts.skip(i as int) =~= if args.len() == 0 {
        texts
    } else {
        texts.drop_first()
    });
    assert(all_settings(directories@) =~= Seq::<DirSettings>::empty());
    while i < args.len()
        invariant
            texts == arg_texts(args@),
            i <= args@.len(),
            parse_rest(texts.skip(i as int), all_settings(directories@), settings(params), expect)
                == parse_spec(texts),
        decreases args@.len() - i,
    {
        let ghost dirs = all_settings(directories@);
        let ghost p = settings(params);
        let ghost e = expect;
        assert(texts.skip(i as int)[0] == args@[i as int]@);
        assert(texts.skip(i as int).drop_first() =~= texts.skip(i + 1));
        let arg = to_lower(args[i].as_str());
        let a = arg.as_str();
        if a.unicode_len() > 0 && a.get_char(0) == '-' && expect.anything() {
            return Err(ArgError::MissingValue);
        } else if same_text(a, "-w") || same_text(a, "-width") {
            expect.width = true;
        } else if same_text(a, "-h") || same_text(a, "-height") {
            expect.height = true;
        } else if same_text(a, "-a") || same_text(a, "-alignment") {
            expect.alignment = true;
        } else if same_text(a, "-b") || same_text(a, "-bpp") {
            expect.bpp = true;
        } else if same_text(a, "-p") || same_text(a, "-paletteoffset") {
            expect.offset = true;
        } else if same_text(a, "-n") || same_text(a, "-nooutput") {
            params.no_output = true;
        } else if expect.width {
            match parse_usize(a) {
                Some(n) => {
                    params.width = n;
                    expect.expect_file();
                },
                None => return Err(ArgError::InvalidWidth),
            }
        } else if expect.height {
            match parse_usize(a) {
                Some(n) => {
                    params.height = n;
                    expect.expect_file();
                },
                None => return Err(ArgError::InvalidHeight),
            }
        } else if expect.alignment {
            match alignment_keyword(a) {
                Some((alignment, vapor)) => {
                    params.alignment = alignment;
                    params.vapor = params.vapor || vapor;
                },
                None => match parse_usize(a) {
                    Some(n) => {
                        params.alignment = n;
                    },
                    None => return Err(ArgError::InvalidAlignment),
                },
            }
            expect.expect_file();
        } else if expect.bpp {
            match parse_usize(a) {
                Some(n) => {
                    if n <= 255 && accepts_bpp(n as u8) {
                        params.bpp = n as u8;
                        expect.expect_file();
                    } else {
                        return Err(ArgError::InvalidBpp);
                    }
                },
                None => return Err(ArgError::InvalidBpp),
            }
        } else if expect.offset {
            match parse_usize(a) {
                Some(n) => {
                    if accepts_offset(n) {
                        params.palette_offset = Some(n);
                        expect.expect_file();
                    } else {
                        return Err(ArgError::InvalidOffset);
                    }
                },
                None => return Err(ArgError::InvalidOffset),
            }
        } else {
            params.path = arg;
            let ghost finished = settings(params);
            directories.push(params);
            assert(all_settings(directories@) =~= dirs.push(finished));
            params = DirParameters::new();
            expect = Expectations::new();
        }
        i = i + 1;
    }
    assert(texts.skip(i as int) =~= Seq::<Seq<char>>::empty());
    if expect.anything() {
        return Err(ArgError::MissingValue);
    } else if expect.file {
        let ghost dirs = all_settings(directories@);
        params.path = String::from_str("./");
        let ghost finished = settings(params);
        directories.push(params);
        assert(all_settings(directories@) =~= dirs.push(finished));
    }
    Ok(directories)
}

} // verus!
