//! The options of `gridlook dump`, an `ncdump`-compatible header dump.
//!
//! Flags mirror ncdump's letters where the behavior exists (`-h`, `-s`,
//! `-k`, `-n`, `-g`). ncdump's data-section flags (`-c`, `-v`, `-x`, `-t`,
//! `-i`, `-w`, `-l`, `-p`, `-b`, `-f`) are recognized but rejected with a
//! clear "not implemented" message, since only the header is produced.

use vstd::prelude::*;
use crate::dispatch::FormatHint;

verus! {

/// The options of `gridlook dump`.
#[derive(Debug, Clone, PartialEq, Eq)]
pub struct DumpArgs {
    /// Show only the header (dimensions, variables, attributes, groups).
    pub header: bool,
    /// Also show special virtual attributes describing storage.
    pub specials: bool,
    /// Print only the format kind.
    pub kind: bool,
    /// Name to print after `netcdf` on the first line.
    pub name: Option<String>,
    /// Show only these groups and their descendants.
    pub groups: Option<Vec<String>>,
    /// Read with this format's reader instead of detecting the format.
    pub source_format: Option<FormatArg>,
    /// Send unsigned requests instead of using credentials.
    pub anonymous: bool,
    /// S3 region.
    pub region: Option<String>,
    /// S3-compatible endpoint URL.
    pub endpoint: Option<String>,
    /// Allow plain-http object store endpoints.
    pub allow_http: bool,
    /// ncdump `-c`: coordinate variable data.
    pub coords: bool,
    /// ncdump `-v`: data for selected variables.
    pub variables: Option<String>,
    /// ncdump `-x`: NcML output.
    pub xml: bool,
    /// ncdump `-t`: time values as date-time strings.
    pub time_strings: bool,
    /// ncdump `-i`: ISO 8601 time strings.
    pub iso_time: bool,
    /// ncdump `-w`: no line wrapping of data.
    pub no_wrap: bool,
    /// ncdump `-l`: data line length.
    pub line_length: Option<String>,
    /// ncdump `-p`: data precision.
    pub precision: Option<String>,
    /// ncdump `-b`: brief data annotations.
    pub brief: Option<String>,
    /// ncdump `-f`: full data annotations.
    pub full: Option<String>,
    /// File, directory, or URL to read.
    pub source: String,
}

/// The reader a user can force with `--source-format`.
#[derive(Debug, Clone, Copy, PartialEq, Eq, Structural)]
pub enum FormatArg {
    /// NetCDF-3/4 or HDF5 file
    Netcdf,
    /// Zarr v2 or v3 store
    Zarr,
    /// Icechunk repository
    Icechunk,
}

/// The reader family a `--source-format` value names.
pub open spec fn spec_hint_of(arg: FormatArg) -> FormatHint {
    match arg {
        FormatArg::Netcdf => FormatHint::NetCdf,
        FormatArg::Zarr => FormatHint::Zarr,
        FormatArg::Icechunk => FormatHint::Icechunk,
    }
}

impl From<FormatArg> for FormatHint {
    fn from(arg: FormatArg) -> (r: Self) {
        match arg {
            FormatArg::Netcdf => FormatHint::NetCdf,
            FormatArg::Zarr => FormatHint::Zarr,
            FormatArg::Icechunk => FormatHint::Icechunk,
        }
    }
}

impl vstd::std_specs::convert::FromSpecImpl<FormatArg> for FormatHint {
    open spec fn obeys_from_spec() -> bool {
        true
    }

    open spec fn from_spec(arg: FormatArg) -> FormatHint {
        spec_hint_of(arg)
    }
}

/// The data-section flags in the order ncdump documents them, each with
/// what it does in ncdump and whether it was given.
pub open spec fn flag_table(a: DumpArgs) -> Seq<(Seq<char>, Seq<char>, bool)> {
    seq![
        ("-c"@, "coordinate variable data"@, a.coords),
        ("-v"@, "data for selected variables"@, a.variables is Some),
        ("-x"@, "NcML/XML output"@, a.xml),
        ("-t"@, "time values as date-time strings"@, a.time_strings),
        ("-i"@, "ISO 8601 time strings"@, a.iso_time),
        ("-w"@, "no line wrapping of data"@, a.no_wrap),
        ("-l"@, "data line length"@, a.line_length is Some),
        ("-p"@, "data precision"@, a.precision is Some),
        ("-b"@, "brief data annotations"@, a.brief is Some),
        ("-f"@, "full data annotations"@, a.full is Some),
    ]
}

/// The flag and description of the first entry of `t` that was given.
pub open spec fn first_given(t: Seq<(Seq<char>, Seq<char>, bool)>) -> Option<(Seq<char>, Seq<char>)>
    decreases t.len(),
{
    if t.len() == 0 {
        None
    } else if t[0].2 {
        Some((t[0].0, t[0].1))
    } else {
        first_given(t.drop_first())
    }
}

impl DumpArgs {
    /// The first ncdump flag given that this version does not implement, as
    /// `(flag, what it does in ncdump)`.
    pub fn unimplemented_flag(&self) -> (r: Option<(&'static str, &'static str)>)
        ensures
            match r {
                Some(p) => first_given(flag_table(*self)) == Some((p.0@, p.1@)),
                None => first_given(flag_table(*self)) is None,
            },
    {
        let ghost t = flag_table(*self);
        proof {
            reveal_with_fuel(first_given, 11);
            assert(t.drop_first() =~= t.subrange(1, 10));
            assert(t.subrange(1, 10).drop_first() =~= t.subrange(2, 10));
            assert(t.subrange(2, 10).drop_first() =~= t.subrange(3, 10));
            assert(t.subrange(3, 10).drop_first() =~= t.subrange(4, 10));
            assert(t.subrange(4, 10).drop_first() =~= t.subrange(5, 10));
            assert(t.subrange(5, 10).drop_first() =~= t.subrange(6, 10));
            assert(t.subrange(6, 10).drop_first() =~= t.subrange(7, 10));
            assert(t.subrange(7, 10).drop_first() =~= t.subrange(8, 10));
            assert(t.subrange(8, 10).drop_first() =~= t.subrange(9, 10));
            assert(t.subrange(9, 10).drop_first() =~= t.subrange(10, 10));
        }
        if self.coords {
            return Some(("-c", "coordinate variable data"));
        }
        if self.variables.is_some() {
            return Some(("-v", "data for selected variables"));
        }
        if self.xml {
            return Some(("-x", "NcML/XML output"));
        }
        if self.time_strings {
            return Some(("-t", "time values as date-time strings"));
        }
        if self.iso_time {
            return Some(("-i", "ISO 8601 time strings"));
        }
        if self.no_wrap {
            return Some(("-w", "no line wrapping of data"));
        }
        if self.line_length.is_some() {
            return Some(("-l", "data line length"));
        }
        if self.precision.is_some() {
            return Some(("-p", "data precision"));
        }
        if self.brief.is_some() {
            return Some(("-b", "brief data annotations"));
        }
        if self.full.is_some() {
            return Some(("-f", "full data annotations"));
        }
        None
    }
}

/// Whether a dump needs the detailed read that records storage details:
/// `-k` needs the precise file kind, and `-s` needs everything.
pub fn needs_storage_details(args: &DumpArgs) -> (r: bool)
    ensures
        r == (args.specials || args.kind),
{
    args.specials || args.kind
}


/// Exit status for a source that could not be read or rendered.
pub const EXIT_FAILURE: u8 = 1;

/// Exit status for a usage problem (an unimplemented ncdump flag).
pub const EXIT_USAGE: u8 = 2;

/// What a dump says when given a data-section flag it does not implement.
pub fn unimplemented_message(flag: &str, what: &str) -> (r: String)
    ensures
        r@ == "gridlook dump: "@ + flag@ + " ("@ + what@ + ") is not implemented yet; only the header (-h) is available"@,
{
    let mut s = crate::text::owned("gridlook dump: ");
    crate::text::push_str(&mut s, flag);
    crate::text::push_str(&mut s, " (");
    crate::text::push_str(&mut s, what);
    crate::text::push_str(&mut s, ") is not implemented yet; only the header (-h) is available");
    s
}

/// The reminder a dump prints (to stderr) when `-h` was not given: only
/// the header exists so far.
pub fn header_note(args: &DumpArgs) -> (r: Option<String>)
    ensures
        r is Some <==> !args.header,
        r matches Some(t) ==> t@ == "note: gridlook dump prints the header only; the data section is not implemented yet (pass -h to silence this note)"@,
{
    if args.header {
        None
    } else {
        Some(crate::text::owned("note: gridlook dump prints the header only; the data section is not implemented yet (pass -h to silence this note)"))
    }
}

} // verus!
