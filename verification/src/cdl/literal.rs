//! CDL literals: how `ncdump` spells attribute values and names.
//!
//! Numbers carry a type suffix so the text round-trips through `ncgen` with
//! the same type: `b` byte, `UB` ubyte, `s` short, `US` ushort, (none) int,
//! `U` uint, `LL` int64, `ULL` uint64, `f` float, (none) double. Floats use
//! C's `%.7g` / `%.15g` with trailing zeros trimmed but the decimal point
//! kept (`15.f`, `0.1`, `1.e+20f`), and non-finite values spell out as
//! `NaNf`, `Infinityf`, `-Infinity`. Strings are double-quoted with C-style
//! escapes.

use vstd::prelude::*;
use crate::floatfmt::{float32_literal, float_literal, spec_float32_literal, spec_float_literal};
use crate::model::{AttrScalar, AttrValue, AttrValueV, NumKind, ScalarV, scalars_view, spec_num_kind,
    spec_scalars};
use crate::text::{chars_of, dec, dec_int, digit, digit_char, i64_to_string, join, join_strings, push_char, strings_view, u64_to_string};

verus! {

/// How to spell the two "wide" numeric variants, which mean different things
/// depending on where the attribute came from.
#[derive(Debug, Clone, Copy, PartialEq, Eq, Structural)]
pub enum NumberPolicy {
    /// NetCDF: `Int` is `NC_INT64` (suffix `LL`), `Float` is `NC_DOUBLE`.
    NetCdf,
    /// JSON sources (Zarr, Icechunk): integers and floats are untyped JSON
    /// numbers and print bare, since `5LL` would claim a type the store
    /// never recorded.
    Json,
}

/// How one character of a CDL string literal is written.
pub open spec fn escape_char(c: char) -> Seq<char> {
    if c == '"' {
        seq!['\\', '"']
    } else if c == '\\' {
        seq!['\\', '\\']
    } else if c == '\n' {
        seq!['\\', 'n']
    } else if c == '\t' {
        seq!['\\', 't']
    } else if c == '\r' {
        seq!['\\', 'r']
    } else if c == '\u{8}' {
        seq!['\\', 'b']
    } else if c == '\u{c}' {
        seq!['\\', 'f']
    } else if c == '\u{b}' {
        seq!['\\', 'v']
    } else if (c as int) < 0x20 || (c as int) == 0x7f {
        seq![
            '\\',
            digit_char((c as nat) / 64),
            digit_char(((c as nat) / 8) % 8),
            digit_char((c as nat) % 8),
        ]
    } else {
        seq![c]
    }
}

/// Every character of `s` escaped.
pub open spec fn escape_all(s: Seq<char>) -> Seq<char>
    decreases s.len(),
{
    if s.len() == 0 {
        Seq::empty()
    } else {
        escape_all(s.drop_last()) + escape_char(s.last())
    }
}

/// The CDL string literal for `s`.
pub open spec fn spec_cdl_string(s: Seq<char>) -> Seq<char> {
    seq!['"'] + escape_all(s) + seq!['"']
}

/// Characters that stand in a CDL name as they are: ASCII letters and
/// digits, `_`, `@`, and everything outside ASCII.
pub open spec fn name_safe(c: char) -> bool {
    ('a' <= c && c <= 'z') || ('A' <= c && c <= 'Z') || ('0' <= c && c <= '9') || c == '_'
        || c == '@' || '\u{80}' <= c
}

/// How one character of a CDL name is written.
pub open spec fn name_char(c: char) -> Seq<char> {
    if name_safe(c) {
        seq![c]
    } else {
        seq!['\\', c]
    }
}

/// A name as CDL spells it.
pub open spec fn spec_cdl_name(s: Seq<char>) -> Seq<char>
    decreases s.len(),
{
    if s.len() == 0 {
        Seq::empty()
    } else {
        spec_cdl_name(s.drop_last()) + name_char(s.last())
    }
}

/// Appends `escape_char(c)`.
fn push_escaped(out: &mut String, c: char)
    ensures
        final(out)@ == old(out)@ + escape_char(c),
{
    let ghost start = out@;
    let code: u32 = c as u32;
    if c == '"' {
        push_char(out, '\\');
        push_char(out, '"');
    } else if c == '\\' {
        push_char(out, '\\');
        push_char(out, '\\');
    } else if c == '\n' {
        push_char(out, '\\');
        push_char(out, 'n');
    } else if c == '\t' {
        push_char(out, '\\');
        push_char(out, 't');
    } else if c == '\r' {
        push_char(out, '\\');
        push_char(out, 'r');
    } else if c == '\u{8}' {
        push_char(out, '\\');
        push_char(out, 'b');
    } else if c == '\u{c}' {
        push_char(out, '\\');
        push_char(out, 'f');
    } else if c == '\u{b}' {
        push_char(out, '\\');
        push_char(out, 'v');
    } else if code < 0x20 || code == 0x7f {
        push_char(out, '\\');
        push_char(out, digit((code / 64) as u64));
        push_char(out, digit(((code / 8) % 8) as u64));
        push_char(out, digit((code % 8) as u64));
    } else {
        push_char(out, c);
    }
    assert(out@ =~= start + escape_char(c));
}

/// A double-quoted CDL string with ncdump's escapes: `\"`, `\\`, `\n`,
/// `\t`, `\r`, `\b`, `\f`, `\v`, and `\ooo` for other control characters.
/// Non-ASCII text passes through as it is. (ncdump breaks lines after an
/// embedded newline only for classic-format files; the netCDF-4 behavior
/// of keeping the string on one line is used throughout.)
pub fn cdl_string(s: &str) -> (r: String)
    ensures
        r@ == spec_cdl_string(s@),
{
    let cs = chars_of(s);
    let mut out = String::new();
    push_char(&mut out, '"');
    let mut i: usize = 0;
    while i < cs.len()
        invariant
            i <= cs.len(),
            cs@ == s@,
            out@ == seq!['"'] + escape_all(cs@.take(i as int)),
        decreases cs.len() - i,
    {
        push_escaped(&mut out, cs[i]);
        assert(cs@.take(i + 1).drop_last() == cs@.take(i as int));
        i = i + 1;
    }
    assert(cs@.take(cs.len() as int) == cs@);
    push_char(&mut out, '"');
    out
}

/// A dimension/variable/attribute/group name as CDL spells it: characters
/// other than letters, digits, `_`, `@` and non-ASCII are backslash-escaped
/// (`my\-var`), matching ncdump's `escaped_name`.
pub fn cdl_name(name: &str) -> (r: String)
    ensures
        r@ == spec_cdl_name(name@),
{
    let cs = chars_of(name);
    let mut out = String::new();
    let mut i: usize = 0;
    while i < cs.len()
        invariant
            i <= cs.len(),
            cs@ == name@,
            out@ == spec_cdl_name(cs@.take(i as int)),
        decreases cs.len() - i,
    {
        let c = cs[i];
        let ghost before = out@;
        if ('a' <= c && c <= 'z') || ('A' <= c && c <= 'Z') || ('0' <= c && c <= '9') || c == '_'
            || c == '@' || '\u{80}' <= c {
            push_char(&mut out, c);
        } else {
            push_char(&mut out, '\\');
            push_char(&mut out, c);
        }
        assert(out@ =~= before + name_char(c));
        assert(cs@.take(i + 1).drop_last() == cs@.take(i as int));
        i = i + 1;
    }
    assert(cs@.take(cs.len() as int) == cs@);
    out
}

/// The suffix of a signed integer literal.
pub open spec fn int_suffix(kind: Option<NumKind>, policy: NumberPolicy) -> Seq<char> {
    match kind {
        Some(NumKind::I8) => seq!['b'],
        Some(NumKind::I16) => seq!['s'],
        Some(NumKind::I64) => if policy == NumberPolicy::NetCdf { seq!['L', 'L'] } else { Seq::empty() },
        _ => Seq::empty(),
    }
}

/// The suffix of an unsigned integer literal.
pub open spec fn uint_suffix(kind: Option<NumKind>) -> Seq<char> {
    match kind {
        Some(NumKind::U8) => seq!['U', 'B'],
        Some(NumKind::U16) => seq!['U', 'S'],
        Some(NumKind::U32) => seq!['U'],
        Some(NumKind::U64) => seq!['U', 'L', 'L'],
        _ => Seq::empty(),
    }
}

/// One element of an attribute value as a CDL literal.
pub open spec fn spec_scalar_literal(s: ScalarV, kind: Option<NumKind>, policy: NumberPolicy) -> Seq<char> {
    match s {
        ScalarV::Text(t) => spec_cdl_string(t),
        ScalarV::Int(i) => dec_int(i as int) + int_suffix(kind, policy),
        ScalarV::UInt(u) => dec(u as nat) + uint_suffix(kind),
        ScalarV::F32(b) => spec_float32_literal(b, 7, seq!['f']),
        ScalarV::F64(b) => spec_float_literal(b, 15, Seq::empty()),
    }
}

/// The literals of a list of scalars.
pub open spec fn scalar_literals(ss: Seq<ScalarV>, kind: Option<NumKind>, policy: NumberPolicy) -> Seq<Seq<char>> {
    Seq::new(ss.len(), |i: int| spec_scalar_literal(ss[i], kind, policy))
}

/// An attribute value as a CDL literal list.
pub open spec fn spec_attr_literal(v: AttrValueV, policy: NumberPolicy) -> Seq<char> {
    join(scalar_literals(spec_scalars(v), spec_num_kind(v), policy), seq![',', ' '])
}

/// One element of an attribute value as a CDL literal: strings quoted,
/// integers with their type's suffix, floats `%.7g`/`%.15g`.
pub fn scalar_literal(scalar: AttrScalar<'_>, kind: Option<NumKind>, policy: NumberPolicy) -> (r: String)
    ensures
        r@ == spec_scalar_literal(scalar@, kind, policy),
{
    match scalar {
        AttrScalar::Text(s) => cdl_string(s),
        AttrScalar::Int(i) => {
            let mut out = i64_to_string(i);
            match kind {
                Some(NumKind::I8) => push_char(&mut out, 'b'),
                Some(NumKind::I16) => push_char(&mut out, 's'),
                Some(NumKind::I64) => {
                    if policy == NumberPolicy::NetCdf {
                        push_char(&mut out, 'L');
                        push_char(&mut out, 'L');
                    }
                },
                _ => {},
            }
            assert(out@ =~= spec_scalar_literal(scalar@, kind, policy));
            out
        },
        AttrScalar::UInt(u) => {
            let mut out = u64_to_string(u);
            match kind {
                Some(NumKind::U8) => {
                    push_char(&mut out, 'U');
                    push_char(&mut out, 'B');
                },
                Some(NumKind::U16) => {
                    push_char(&mut out, 'U');
                    push_char(&mut out, 'S');
                },
                Some(NumKind::U32) => push_char(&mut out, 'U'),
                Some(NumKind::U64) => {
                    push_char(&mut out, 'U');
                    push_char(&mut out, 'L');
                    push_char(&mut out, 'L');
                },
                _ => {},
            }
            assert(out@ =~= spec_scalar_literal(scalar@, kind, policy));
            out
        },
        AttrScalar::F32(b) => {
            let mut suffix = String::new();
            push_char(&mut suffix, 'f');
            assert(suffix@ =~= seq!['f']);
            float32_literal(b, 7, suffix.as_str())
        },
        AttrScalar::F64(b) => {
            let suffix = String::new();
            float_literal(b, 15, suffix.as_str())
        },
    }
}

/// Renders an attribute value as a CDL literal list (`1.5f, 2.f`, `"text"`,
/// `1b, 2b`). An empty list renders as an empty string, which CDL accepts
/// (`name = ;`).
pub fn attr_literal(value: &AttrValue, policy: NumberPolicy) -> (r: String)
    ensures
        r@ == spec_attr_literal(value@, policy),
{
    let kind = value.num_kind();
    let scalars = value.scalars();
    let mut parts: Vec<String> = Vec::new();
    let mut i: usize = 0;
    while i < scalars.len()
        invariant
            i <= scalars.len(),
            parts@.len() == i,
            scalars_view(scalars@) == spec_scalars(value@),
            kind == spec_num_kind(value@),
            forall|j: int| 0 <= j < i ==> #[trigger] parts@[j]@ == spec_scalar_literal(scalars@[j]@, kind, policy),
        decreases scalars.len() - i,
    {
        let lit = scalar_literal(scalars[i], kind, policy);
        parts.push(lit);
        i = i + 1;
    }
    proof {
        let want = scalar_literals(spec_scalars(value@), kind, policy);
        assert forall|j: int| 0 <= j < want.len() implies strings_view(parts@)[j] == want[j] by {
            assert(scalars_view(scalars@)[j] == scalars@[j]@);
        }
        assert(strings_view(parts@) =~= want);
    }
    let mut sep = String::new();
    push_char(&mut sep, ',');
    push_char(&mut sep, ' ');
    assert(sep@ =~= seq![',', ' ']);
    join_strings(parts.as_slice(), sep.as_str())
}


/// A name made only of ASCII letters, digits, `_`, `@` and non-ASCII
/// characters is written as it is: nothing in it is escaped.
pub proof fn lemma_cdl_name_keeps_plain_names(s: Seq<char>)
    requires
        forall|i: int| 0 <= i < s.len() ==> {
            let c = #[trigger] s[i];
            ('a' <= c && c <= 'z') || ('A' <= c && c <= 'Z') || ('0' <= c && c <= '9') || c == '_'
                || c == '@' || '\u{80}' <= c
        },
    ensures
        spec_cdl_name(s) == s,
    decreases s.len(),
{
    if s.len() > 0 {
        lemma_cdl_name_keeps_plain_names(s.drop_last());
        assert(s.drop_last().push(s.last()) =~= s);
        let c = s.last();
        assert(c == s[s.len() - 1]);
    }
}

/// Any other character (punctuation, space, a control character) is
/// written behind one backslash.
pub proof fn lemma_cdl_name_escapes_other_chars(c: char)
    requires
        !(('a' <= c && c <= 'z') || ('A' <= c && c <= 'Z') || ('0' <= c && c <= '9') || c == '_'
            || c == '@' || '\u{80}' <= c),
    ensures
        spec_cdl_name(seq![c]) == seq!['\\', c],
{
    let s = seq![c];
    assert(s.drop_last() =~= Seq::<char>::empty());
    assert(s.last() == c);
    assert(spec_cdl_name(Seq::<char>::empty()) == Seq::<char>::empty());
    assert(name_char(c) == seq!['\\', c]);
    assert(spec_cdl_name(s) == spec_cdl_name(s.drop_last()) + name_char(s.last()));
    assert(Seq::<char>::empty() + seq!['\\', c] =~= seq!['\\', c]);
}

/// Names are escaped character by character: the name of a concatenation
/// is the concatenation of the names.
pub proof fn lemma_cdl_name_concat(a: Seq<char>, b: Seq<char>)
    ensures
        spec_cdl_name(a + b) == spec_cdl_name(a) + spec_cdl_name(b),
    decreases b.len(),
{
    if b.len() == 0 {
        assert(a + b =~= a);
        assert(spec_cdl_name(a) + Seq::<char>::empty() =~= spec_cdl_name(a));
    } else {
        lemma_cdl_name_concat(a, b.drop_last());
        assert((a + b).drop_last() =~= a + b.drop_last());
        assert((a + b).last() == b.last());
        assert(spec_cdl_name(a) + spec_cdl_name(b.drop_last()) + name_char(b.last())
            =~= spec_cdl_name(a) + (spec_cdl_name(b.drop_last()) + name_char(b.last())));
    }
}

} // verus!
