//! The text of well-formed dumps, and what the decoders make of it: every
//! well-formed record decodes to the numbers written in it and leaves what
//! follows it untouched.
use crate::scan::{
    hex_value, in_class, is_flag_char, is_hex_digit, lemma_run_bounds, lemma_run_is, run,
    spec_hex, spec_spaces, spec_token, CharClass, ParseError, SpecResult,
};
use crate::x86_cpu_state_parser::{
    spec_cpu, spec_debug_regs, spec_descriptor_tables, spec_general_regs, spec_qwords_line,
    spec_segment_regs, spec_status_regs, ControlRegs, CpuView, DebugRegs, DescriptorTable,
    GeneralRegisters, SegmentRegisters, StatusView,
};
use crate::x86_element_parser::{
    dt_line_fn, hex_field_fn, hflag_fn, lemma_repeat_fails, qword_fn, repeat, segment_line_fn,
    spec_dt_line, spec_eflags, spec_hex_field, spec_hflag, spec_qword, spec_qword_line,
    spec_segment_line, spec_skipped_line, then_newline,
};
use vstd::prelude::*;

verus! {

/// A non-empty string of hex digits whose value fits in 64 bits.
pub open spec fn digits_ok(d: Seq<char>) -> bool {
    &&& d.len() > 0
    &&& forall|i: int| 0 <= i < d.len() ==> is_hex_digit(#[trigger] d[i])
    &&& hex_value(d) <= u64::MAX
}

/// The 64-bit value of a digit string.
pub open spec fn digits_value(d: Seq<char>) -> u64 {
    hex_value(d) as u64
}

/// `s` is empty or does not start with a hex digit, so a number before it
/// ends where it starts.
pub open spec fn ends_number(s: Seq<char>) -> bool {
    s.len() == 0 || !is_hex_digit(s[0])
}

pub open spec fn all_in(s: Seq<char>, k: CharClass) -> bool {
    forall|i: int| 0 <= i < s.len() ==> in_class(#[trigger] s[i], k)
}

/// A run of class `k` that is followed by a character outside it.
proof fn lemma_run_of(a: Seq<char>, k: CharClass, rest: Seq<char>)
    requires
        all_in(a, k),
        rest.len() == 0 || !in_class(rest[0], k),
    ensures
        run(a + rest, k) == a.len(),
        (a + rest).take(a.len() as int) == a,
        (a + rest).skip(a.len() as int) == rest,
{
    let s = a + rest;
    assert forall|j: int| 0 <= j < a.len() implies in_class(#[trigger] s[j], k) by {
        assert(s[j] == a[j]);
    }
    if rest.len() > 0 {
        assert(s[a.len() as int] == rest[0]);
    }
    lemma_run_is(s, k, a.len() as int);
    assert(s.take(a.len() as int) =~= a);
    assert(s.skip(a.len() as int) =~= rest);
}

/// A digit string followed by a non-digit decodes to its value.
pub proof fn lemma_hex_text(d: Seq<char>, rest: Seq<char>)
    requires
        digits_ok(d),
        ends_number(rest),
    ensures
        spec_hex(d + rest) == Ok::<_, ParseError>((digits_value(d), rest)),
{
    assert(all_in(d, CharClass::HexDigit));
    lemma_run_of(d, CharClass::HexDigit, rest);
}

/// `label=digits`.
pub open spec fn field_text(label: Seq<char>, d: Seq<char>) -> Seq<char> {
    label + seq!['='] + d
}

/// A label holds neither `=` nor the line terminator.
pub open spec fn label_ok(label: Seq<char>) -> bool {
    all_in(label, CharClass::LabelText)
}

/// A labeled hex number decodes to the value of its digits.
pub proof fn lemma_qword_text(label: Seq<char>, d: Seq<char>, rest: Seq<char>)
    requires
        label_ok(label),
        digits_ok(d),
        ends_number(rest),
    ensures
        spec_qword(field_text(label, d) + rest) == Ok::<_, ParseError>(
            (digits_value(d), rest),
        ),
{
    let s = field_text(label, d) + rest;
    let t = seq!['='] + (d + rest);
    assert(s =~= label + t);
    lemma_run_of(label, CharClass::LabelText, t);
    assert(t.drop_first() =~= d + rest);
    lemma_hex_text(d, rest);
}

/// White space within a line: what `char::is_whitespace` accepts, but for
/// the line terminator.
pub open spec fn blanks_ok(s: Seq<char>) -> bool {
    &&& all_in(s, CharClass::Space)
    &&& forall|i: int| 0 <= i < s.len() ==> #[trigger] s[i] != '\n'
}

pub open spec fn is_blank(c: char) -> bool {
    in_class(c, CharClass::Space) && c != '\n'
}

/// Blanks, then digits: one field of a segment or descriptor-table line.
pub open spec fn spaced_text(blanks: Seq<char>, d: Seq<char>) -> Seq<char> {
    blanks + d
}

/// Skipping a run of white space.
proof fn lemma_spaces_of(b: Seq<char>, rest: Seq<char>)
    requires
        all_in(b, CharClass::Space),
        rest.len() == 0 || !in_class(rest[0], CharClass::Space),
    ensures
        spec_spaces(b + rest) == rest,
{
    lemma_run_of(b, CharClass::Space, rest);
}

/// A blank-led field decodes to the value of its digits.
pub proof fn lemma_hex_field_text(blanks: Seq<char>, d: Seq<char>, rest: Seq<char>)
    requires
        all_in(blanks, CharClass::Space),
        digits_ok(d),
        ends_number(rest),
    ensures
        spec_hex_field(spaced_text(blanks, d) + rest) == Ok::<_, ParseError>(
            (digits_value(d), rest),
        ),
{
    assert(spaced_text(blanks, d) + rest =~= blanks + (d + rest));
    assert((d + rest)[0] == d[0]);
    lemma_spaces_of(blanks, d + rest);
    lemma_hex_text(d, rest);
}

/// Blanks, `name=digits`: one labeled flag.
pub open spec fn hflag_text(blanks: Seq<char>, name: Seq<char>, d: Seq<char>) -> Seq<char> {
    blanks + name + seq!['='] + d
}

/// A labeled flag decodes to its name and the value of its digits.
pub proof fn lemma_hflag_text(blanks: Seq<char>, name: Seq<char>, d: Seq<char>, rest: Seq<char>)
    requires
        all_in(blanks, CharClass::Space),
        name.len() > 0,
        all_in(name, CharClass::LabelChar),
        digits_ok(d),
        ends_number(rest),
    ensures
        spec_hflag(hflag_text(blanks, name, d) + rest) == Ok::<_, ParseError>(
            ((name, digits_value(d)), rest),
        ),
{
    let t = seq!['='] + (d + rest);
    let u = name + t;
    assert(hflag_text(blanks, name, d) + rest =~= blanks + u);
    assert(u[0] == name[0]);
    lemma_spaces_of(blanks, u);
    lemma_run_of(name, CharClass::LabelChar, t);
    assert(t.drop_first() =~= d + rest);
    lemma_hex_text(d, rest);
}

/// Blanks, then the bracketed flag set.
pub open spec fn flags_text(blanks: Seq<char>, flags: Seq<char>) -> Seq<char> {
    blanks + seq!['['] + flags + seq![']']
}

/// The flag-set decoder takes a bracketed string exactly when it is a
/// non-empty string of the symbols `DOSZAPC-`, and then yields it unchanged,
/// in order.
pub proof fn lemma_eflags_text(blanks: Seq<char>, x: Seq<char>, rest: Seq<char>)
    requires
        all_in(blanks, CharClass::Space),
    ensures
        spec_eflags(flags_text(blanks, x) + rest) == Ok::<_, ParseError>((x, rest))
            <==> (x.len() > 0 && all_in(x, CharClass::FlagChar)),
{
    let w = seq![']'] + rest;
    let u = x + w;
    let t = seq!['['] + u;
    assert(flags_text(blanks, x) + rest =~= blanks + t);
    lemma_spaces_of(blanks, t);
    assert(t.drop_first() =~= u);
    if x.len() > 0 && all_in(x, CharClass::FlagChar) {
        lemma_run_of(x, CharClass::FlagChar, w);
        assert(w.drop_first() =~= rest);
    } else {
        lemma_run_bounds(u, CharClass::FlagChar);
        if spec_eflags(flags_text(blanks, x) + rest) == Ok::<_, ParseError>((x, rest)) {
            let n = run(u, CharClass::FlagChar) as int;
            assert(u.take(n) == x);
            assert forall|i: int| 0 <= i < x.len() implies in_class(#[trigger] x[i], CharClass::FlagChar) by {
                assert(x[i] == u.take(n)[i]);
            }
        }
    }
}

/// Whatever the flag-set decoder yields consists of flag symbols only.
pub proof fn lemma_eflags_symbols(s: Seq<char>)
    requires
        spec_eflags(s) is Ok,
    ensures
        spec_eflags(s)->Ok_0.0.len() > 0,
        forall|i: int| 0 <= i < spec_eflags(s)->Ok_0.0.len() ==> is_flag_char(
            #[trigger] spec_eflags(s)->Ok_0.0[i],
        ),
{
    let t = spec_token(spec_spaces(s), '[')->Ok_0.1;
    lemma_run_bounds(t, CharClass::FlagChar);
    let n = run(t, CharClass::FlagChar) as int;
    assert forall|i: int| 0 <= i < n implies is_flag_char(#[trigger] t.take(n)[i]) by {
        assert(t.take(n)[i] == t[i]);
        assert(in_class(t[i], CharClass::FlagChar));
    }
}

/// The pieces of text one after the other.
pub open spec fn concat(texts: Seq<Seq<char>>) -> Seq<char>
    decreases texts.len(),
{
    if texts.len() == 0 {
        Seq::empty()
    } else {
        concat(texts.drop_last()) + texts.last()
    }
}

/// Repeating a decoder over pieces of text, each of which it decodes to a
/// known value wherever `ok` holds of what follows, yields those values in
/// order.
pub proof fn lemma_repeat_concat<T>(
    p: spec_fn(Seq<char>) -> SpecResult<T>,
    texts: Seq<Seq<char>>,
    vals: Seq<T>,
    ok: spec_fn(Seq<char>) -> bool,
    rest: Seq<char>,
)
    requires
        texts.len() == vals.len(),
        forall|i: int, r: Seq<char>|
            0 <= i < texts.len() && ok(r) ==> #[trigger] p(texts[i] + r) == Ok::<_, ParseError>(
                (vals[i], r),
            ),
        forall|i: int, r: Seq<char>| 1 <= i < texts.len() ==> ok(#[trigger] (texts[i] + r)),
        ok(rest),
    ensures
        repeat(p, concat(texts) + rest, texts.len()) == Ok::<_, ParseError>((vals, rest)),
    decreases texts.len(),
{
    let n = texts.len() as int;
    if n == 0 {
        assert(concat(texts) + rest =~= rest);
        assert(vals =~= Seq::<T>::empty());
    } else {
        let t2 = texts.drop_last();
        let v2 = vals.drop_last();
        let r2 = texts[n - 1] + rest;
        assert(concat(texts) + rest =~= concat(t2) + r2);
        if n == 1 {
            assert(concat(t2) + r2 =~= r2);
        } else {
            assert(ok(texts[n - 1] + rest));
            assert forall|i: int, r: Seq<char>| 0 <= i < t2.len() && ok(r) implies #[trigger] p(
                t2[i] + r,
            ) == Ok::<_, ParseError>((v2[i], r)) by {
                assert(p(texts[i] + r) == Ok::<_, ParseError>((vals[i], r)));
            }
            assert forall|i: int, r: Seq<char>| 1 <= i < t2.len() implies ok(
                #[trigger] (t2[i] + r),
            ) by {
                assert(ok(texts[i] + r));
            }
            lemma_repeat_concat(p, t2, v2, ok, r2);
        }
        let whole = concat(texts) + rest;
        if n == 1 {
            assert(v2 =~= Seq::<T>::empty());
        }
        assert(repeat(p, whole, (n - 1) as nat) == Ok::<_, ParseError>((v2, r2)));
        assert(p(texts[n - 1] + rest) == Ok::<_, ParseError>((vals[n - 1], rest)));
        assert(v2.push(vals[n - 1]) =~= vals);
        assert(repeat(p, whole, n as nat) == Ok::<_, ParseError>((vals, rest)));
    }
}

/// The texts of labeled fields.
pub open spec fn field_texts(fs: Seq<(Seq<char>, Seq<char>)>) -> Seq<Seq<char>> {
    Seq::new(fs.len(), |i: int| field_text(fs[i].0, fs[i].1))
}

/// The values of labeled or blank-led fields.
pub open spec fn field_values(fs: Seq<(Seq<char>, Seq<char>)>) -> Seq<u64> {
    Seq::new(fs.len(), |i: int| digits_value(fs[i].1))
}

/// Labeled fields of one line: labels and digits well formed, and every label
/// after the first starts with a blank.
pub open spec fn fields_ok(fs: Seq<(Seq<char>, Seq<char>)>) -> bool {
    forall|i: int|
        0 <= i < fs.len() ==> {
            &&& label_ok(#[trigger] fs[i].0)
            &&& digits_ok(fs[i].1)
            &&& i > 0 ==> fs[i].0.len() > 0 && is_blank(fs[i].0[0])
        }
}

/// A line of labeled fields.
pub open spec fn qword_line_text(fs: Seq<(Seq<char>, Seq<char>)>) -> Seq<char> {
    concat(field_texts(fs)) + seq!['\n']
}

/// A line of labeled fields decodes to their values.
pub proof fn lemma_qword_line_text(fs: Seq<(Seq<char>, Seq<char>)>, rest: Seq<char>)
    requires
        fields_ok(fs),
    ensures
        spec_qwords_line(qword_line_text(fs) + rest, fs.len()) == Ok::<_, ParseError>(
            (field_values(fs), rest),
        ),
{
    let texts = field_texts(fs);
    let rest1 = seq!['\n'] + rest;
    assert(qword_line_text(fs) + rest =~= concat(texts) + rest1);
    let ok = |r: Seq<char>| ends_number(r);
    assert forall|i: int, r: Seq<char>| 0 <= i < texts.len() && ok(r) implies #[trigger] qword_fn()(
        texts[i] + r,
    ) == Ok::<_, ParseError>((field_values(fs)[i], r)) by {
        assert(fs[i].0 == fs[i].0);
        lemma_qword_text(fs[i].0, fs[i].1, r);
    }
    assert forall|i: int, r: Seq<char>| 1 <= i < texts.len() implies ok(#[trigger] (texts[i] + r)) by {
        assert(fs[i].0 == fs[i].0);
        assert((texts[i] + r)[0] == fs[i].0[0]);
    }
    lemma_repeat_concat(qword_fn(), texts, field_values(fs), ok, rest1);
    assert(rest1.drop_first() =~= rest);
}

/// The texts of blank-led fields.
pub open spec fn spaced_texts(fs: Seq<(Seq<char>, Seq<char>)>) -> Seq<Seq<char>> {
    Seq::new(fs.len(), |i: int| spaced_text(fs[i].0, fs[i].1))
}

/// Blank-led fields: blanks and digits well formed, and blanks between
/// consecutive fields.
pub open spec fn spaced_ok(fs: Seq<(Seq<char>, Seq<char>)>) -> bool {
    forall|i: int|
        0 <= i < fs.len() ==> {
            &&& blanks_ok(#[trigger] fs[i].0)
            &&& digits_ok(fs[i].1)
            &&& i > 0 ==> fs[i].0.len() > 0
        }
}

/// Blank-led fields decode to their values.
pub proof fn lemma_spaced_text(fs: Seq<(Seq<char>, Seq<char>)>, rest: Seq<char>)
    requires
        spaced_ok(fs),
        ends_number(rest),
    ensures
        repeat(hex_field_fn(), concat(spaced_texts(fs)) + rest, fs.len()) == Ok::<_, ParseError>(
            (field_values(fs), rest),
        ),
{
    let texts = spaced_texts(fs);
    let ok = |r: Seq<char>| ends_number(r);
    assert forall|i: int, r: Seq<char>| 0 <= i < texts.len() && ok(r) implies #[trigger] hex_field_fn()(
        texts[i] + r,
    ) == Ok::<_, ParseError>((field_values(fs)[i], r)) by {
        assert(fs[i].0 == fs[i].0);
        lemma_hex_field_text(fs[i].0, fs[i].1, r);
    }
    assert forall|i: int, r: Seq<char>| 1 <= i < texts.len() implies ok(#[trigger] (texts[i] + r)) by {
        assert(fs[i].0 == fs[i].0);
        assert((texts[i] + r)[0] == fs[i].0[0]);
        assert(in_class(fs[i].0[0], CharClass::Space));
    }
    lemma_repeat_concat(hex_field_fn(), texts, field_values(fs), ok, rest);
}

/// The texts of labeled flags, each given as (blanks, name, digits).
pub open spec fn hflag_texts(hs: Seq<(Seq<char>, Seq<char>, Seq<char>)>) -> Seq<Seq<char>> {
    Seq::new(hs.len(), |i: int| hflag_text(hs[i].0, hs[i].1, hs[i].2))
}

/// The decoded labeled flags: names and values.
pub open spec fn hflag_values(hs: Seq<(Seq<char>, Seq<char>, Seq<char>)>) -> Seq<(Seq<char>, u64)> {
    Seq::new(hs.len(), |i: int| (hs[i].1, digits_value(hs[i].2)))
}

/// Labeled flags: each led by one or more blanks, with a non-empty name of
/// ASCII letters and digits, and well-formed digits.
pub open spec fn hflags_ok(hs: Seq<(Seq<char>, Seq<char>, Seq<char>)>) -> bool {
    forall|i: int|
        0 <= i < hs.len() ==> {
            &&& #[trigger] hs[i].0.len() > 0
            &&& blanks_ok(hs[i].0)
            &&& hs[i].1.len() > 0
            &&& all_in(hs[i].1, CharClass::LabelChar)
            &&& digits_ok(hs[i].2)
        }
}

/// Labeled flags decode to their names and values.
pub proof fn lemma_hflags_text(hs: Seq<(Seq<char>, Seq<char>, Seq<char>)>, rest: Seq<char>)
    requires
        hflags_ok(hs),
        ends_number(rest),
    ensures
        repeat(hflag_fn(), concat(hflag_texts(hs)) + rest, hs.len()) == Ok::<_, ParseError>(
            (hflag_values(hs), rest),
        ),
{
    let texts = hflag_texts(hs);
    let ok = |r: Seq<char>| ends_number(r);
    assert forall|i: int, r: Seq<char>| 0 <= i < texts.len() && ok(r) implies #[trigger] hflag_fn()(
        texts[i] + r,
    ) == Ok::<_, ParseError>((hflag_values(hs)[i], r)) by {
        assert(hs[i].0.len() > 0);
        lemma_hflag_text(hs[i].0, hs[i].1, hs[i].2, r);
    }
    assert forall|i: int, r: Seq<char>| 1 <= i < texts.len() implies ok(#[trigger] (texts[i] + r)) by {
        assert(hs[i].0.len() > 0);
        assert((texts[i] + r)[0] == hs[i].0[0]);
        assert(in_class(hs[i].0[0], CharClass::Space));
    }
    lemma_repeat_concat(hflag_fn(), texts, hflag_values(hs), ok, rest);
}

/// A segment line, given as (name, blanks, fields).
pub open spec fn segment_text(sg: (Seq<char>, Seq<char>, Seq<(Seq<char>, Seq<char>)>)) -> Seq<char> {
    sg.0 + sg.1 + seq!['='] + concat(spaced_texts(sg.2)) + seq!['\n']
}

/// A segment line with a non-empty name of ASCII letters, blanks before the
/// `=`, and well-formed blank-led fields.
pub open spec fn segment_ok(sg: (Seq<char>, Seq<char>, Seq<(Seq<char>, Seq<char>)>)) -> bool {
    &&& sg.0.len() > 0
    &&& all_in(sg.0, CharClass::Letter)
    &&& blanks_ok(sg.1)
    &&& spaced_ok(sg.2)
}

pub open spec fn segment_value(sg: (Seq<char>, Seq<char>, Seq<(Seq<char>, Seq<char>)>)) -> (
    u64,
    u64,
    u64,
    u64,
) {
    let v = field_values(sg.2);
    (v[0], v[1], v[2], v[3])
}

/// Decoding a segment line up to its fields.
proof fn lemma_segment_head(
    sg: (Seq<char>, Seq<char>, Seq<(Seq<char>, Seq<char>)>),
    rest: Seq<char>,
)
    requires
        segment_ok(sg),
    ensures
        segment_text(sg) + rest == sg.0 + (sg.1 + (seq!['='] + (concat(spaced_texts(sg.2)) + (
        seq!['\n'] + rest)))),
        ({
            let after = concat(spaced_texts(sg.2)) + (seq!['\n'] + rest);
            spec_segment_line(segment_text(sg) + rest) == match repeat(
                hex_field_fn(),
                after,
                4,
            ) {
                Ok((vs, w)) => match spec_token(w, '\n') {
                    Ok((_, x)) => Ok::<_, ParseError>(((vs[0], vs[1], vs[2], vs[3]), x)),
                    Err(e) => Err(e),
                },
                Err(e) => Err(e),
            }
        }),
{
    let after = concat(spaced_texts(sg.2)) + (seq!['\n'] + rest);
    let eq = seq!['='] + after;
    let x = sg.1 + eq;
    assert(segment_text(sg) + rest =~= sg.0 + x);
    assert(x[0] == if sg.1.len() > 0 { sg.1[0] } else { '=' });
    if sg.1.len() > 0 {
        assert(in_class(sg.1[0], CharClass::Space));
    }
    lemma_run_of(sg.0, CharClass::Letter, x);
    lemma_spaces_of(sg.1, eq);
    assert(eq.drop_first() =~= after);
}

/// A segment line with four fields decodes to their values.
pub proof fn lemma_segment_text(
    sg: (Seq<char>, Seq<char>, Seq<(Seq<char>, Seq<char>)>),
    rest: Seq<char>,
)
    requires
        segment_ok(sg),
        sg.2.len() == 4,
    ensures
        spec_segment_line(segment_text(sg) + rest) == Ok::<_, ParseError>((segment_value(sg), rest)),
{
    lemma_segment_head(sg, rest);
    let nl = seq!['\n'] + rest;
    lemma_spaced_text(sg.2, nl);
    assert(nl.drop_first() =~= rest);
}

/// A descriptor-table line, given as (name, fields).
pub open spec fn table_text(tb: (Seq<char>, Seq<(Seq<char>, Seq<char>)>)) -> Seq<char> {
    tb.0 + seq!['='] + concat(spaced_texts(tb.1)) + seq!['\n']
}

/// A descriptor-table line named `GDT` or `IDT` with two well-formed
/// blank-led fields.
pub open spec fn table_ok(tb: (Seq<char>, Seq<(Seq<char>, Seq<char>)>)) -> bool {
    &&& (tb.0 == seq!['G', 'D', 'T'] || tb.0 == seq!['I', 'D', 'T'])
    &&& spaced_ok(tb.1)
    &&& tb.1.len() == 2
}

pub open spec fn table_value(tb: (Seq<char>, Seq<(Seq<char>, Seq<char>)>)) -> (u64, u64) {
    (field_values(tb.1)[0], field_values(tb.1)[1])
}

/// A descriptor-table line decodes to the values of its two fields.
pub proof fn lemma_table_text(tb: (Seq<char>, Seq<(Seq<char>, Seq<char>)>), rest: Seq<char>)
    requires
        table_ok(tb),
    ensures
        spec_dt_line(table_text(tb) + rest) == Ok::<_, ParseError>((table_value(tb), rest)),
{
    let nl = seq!['\n'] + rest;
    let after = concat(spaced_texts(tb.1)) + nl;
    let eq = seq!['='] + after;
    let s = table_text(tb) + rest;
    assert(s =~= tb.0 + eq);
    assert(tb.0.len() == 3);
    assert(s.take(3) =~= tb.0);
    assert(s.skip(3) =~= eq);
    assert(eq.drop_first() =~= after);
    lemma_spaced_text(tb.1, nl);
    assert(nl.drop_first() =~= rest);
}

/// What may vary between well-formed dumps: the labels, digit strings and
/// blanks of every field, the flag set, and the discarded line.
pub struct DumpText {
    /// Eight labeled fields, four per line.
    pub general: Seq<(Seq<char>, Seq<char>)>,
    pub eip: (Seq<char>, Seq<char>),
    pub efl: (Seq<char>, Seq<char>),
    /// The blanks before the bracketed flag set.
    pub flags_blanks: Seq<char>,
    pub flags: Seq<char>,
    /// Labeled flags as (blanks, name, digits).
    pub hflags: Seq<(Seq<char>, Seq<char>, Seq<char>)>,
    /// Segment lines as (name, blanks, fields).
    pub segments: Seq<(Seq<char>, Seq<char>, Seq<(Seq<char>, Seq<char>)>)>,
    /// Descriptor-table lines as (name, fields).
    pub tables: Seq<(Seq<char>, Seq<(Seq<char>, Seq<char>)>)>,
    /// Four labeled fields on one line.
    pub control: Seq<(Seq<char>, Seq<char>)>,
    /// Six labeled fields, four on the first line and two on the second.
    pub debug: Seq<(Seq<char>, Seq<char>)>,
    /// The content of the discarded line.
    pub diagnostic: Seq<char>,
    pub efer: (Seq<char>, Seq<char>),
}

/// The status line.
pub open spec fn status_text(t: DumpText) -> Seq<char> {
    field_text(t.eip.0, t.eip.1) + field_text(t.efl.0, t.efl.1) + flags_text(t.flags_blanks, t.flags)
        + concat(hflag_texts(t.hflags)) + seq!['\n']
}

/// The status line is well formed, but for the number of labeled flags.
pub open spec fn status_ok(t: DumpText) -> bool {
    &&& label_ok(t.eip.0)
    &&& digits_ok(t.eip.1)
    &&& label_ok(t.efl.0)
    &&& t.efl.0.len() > 0
    &&& is_blank(t.efl.0[0])
    &&& digits_ok(t.efl.1)
    &&& blanks_ok(t.flags_blanks)
    &&& t.flags.len() > 0
    &&& all_in(t.flags, CharClass::FlagChar)
    &&& hflags_ok(t.hflags)
}

pub open spec fn status_value(t: DumpText) -> StatusView {
    StatusView {
        eip: digits_value(t.eip.1),
        eflags_raw: digits_value(t.efl.1),
        eflags: t.flags,
        hflags: hflag_values(t.hflags),
    }
}

/// Decoding the status line up to its labeled flags.
proof fn lemma_status_head(t: DumpText, rest: Seq<char>)
    requires
        status_ok(t),
    ensures
        ({
            let after = concat(hflag_texts(t.hflags)) + (seq!['\n'] + rest);
            spec_status_regs(status_text(t) + rest) == match then_newline(
                repeat(hflag_fn(), after, 5),
            ) {
                Ok((hs, x)) => Ok::<_, ParseError>(
                    (
                        StatusView {
                            eip: digits_value(t.eip.1),
                            eflags_raw: digits_value(t.efl.1),
                            eflags: t.flags,
                            hflags: hs,
                        },
                        x,
                    ),
                ),
                Err(e) => Err(e),
            }
        }),
{
    let after = concat(hflag_texts(t.hflags)) + (seq!['\n'] + rest);
    let x3 = flags_text(t.flags_blanks, t.flags) + after;
    let x2 = field_text(t.efl.0, t.efl.1) + x3;
    assert(status_text(t) + rest =~= field_text(t.eip.0, t.eip.1) + x2);
    assert(x2[0] == t.efl.0[0]);
    lemma_qword_text(t.eip.0, t.eip.1, x2);
    if t.flags_blanks.len() > 0 {
        assert(x3[0] == t.flags_blanks[0]);
        assert(in_class(t.flags_blanks[0], CharClass::Space));
    } else {
        assert(x3[0] == '[');
    }
    lemma_qword_text(t.efl.0, t.efl.1, x3);
    lemma_eflags_text(t.flags_blanks, t.flags, after);
}

/// A status line with five labeled flags decodes to its values.
pub proof fn lemma_status_text(t: DumpText, rest: Seq<char>)
    requires
        status_ok(t),
        t.hflags.len() == 5,
    ensures
        spec_status_regs(status_text(t) + rest) == Ok::<_, ParseError>((status_value(t), rest)),
{
    lemma_status_head(t, rest);
    let nl = seq!['\n'] + rest;
    lemma_hflags_text(t.hflags, nl);
    assert(nl.drop_first() =~= rest);
}

/// The two general-register lines.
pub open spec fn general_text(t: DumpText) -> Seq<char> {
    qword_line_text(t.general.take(4)) + qword_line_text(t.general.skip(4))
}

pub open spec fn general_value(t: DumpText) -> GeneralRegisters {
    GeneralRegisters {
        EAX: digits_value(t.general[0].1),
        EBX: digits_value(t.general[1].1),
        ECX: digits_value(t.general[2].1),
        EDX: digits_value(t.general[3].1),
        ESI: digits_value(t.general[4].1),
        EDI: digits_value(t.general[5].1),
        EBP: digits_value(t.general[6].1),
        ESP: digits_value(t.general[7].1),
    }
}

pub open spec fn segment_texts(
    sgs: Seq<(Seq<char>, Seq<char>, Seq<(Seq<char>, Seq<char>)>)>,
) -> Seq<Seq<char>> {
    Seq::new(sgs.len(), |i: int| segment_text(sgs[i]))
}

/// The segment registers that eight segment lines hold, bound by position.
pub open spec fn segments_value(
    sgs: Seq<(Seq<char>, Seq<char>, Seq<(Seq<char>, Seq<char>)>)>,
) -> SegmentRegisters {
    SegmentRegisters {
        ES: segment_value(sgs[0]),
        CS: segment_value(sgs[1]),
        SS: segment_value(sgs[2]),
        DS: segment_value(sgs[3]),
        FS: segment_value(sgs[4]),
        GS: segment_value(sgs[5]),
        LDT: segment_value(sgs[6]),
        TR: segment_value(sgs[7]),
    }
}

pub open spec fn table_texts(tbs: Seq<(Seq<char>, Seq<(Seq<char>, Seq<char>)>)>) -> Seq<
    Seq<char>,
> {
    Seq::new(tbs.len(), |i: int| table_text(tbs[i]))
}

pub open spec fn tables_value(t: DumpText) -> DescriptorTable {
    DescriptorTable { GDT: table_value(t.tables[0]), IDT: table_value(t.tables[1]) }
}

pub open spec fn control_value(t: DumpText) -> ControlRegs {
    ControlRegs {
        CR0: digits_value(t.control[0].1),
        CR1: digits_value(t.control[1].1),
        CR2: digits_value(t.control[2].1),
        CR3: digits_value(t.control[3].1),
    }
}

/// The two debug-register lines.
pub open spec fn debug_text(t: DumpText) -> Seq<char> {
    qword_line_text(t.debug.take(4)) + qword_line_text(t.debug.skip(4))
}

pub open spec fn debug_value(t: DumpText) -> DebugRegs {
    DebugRegs {
        DR0: digits_value(t.debug[0].1),
        DR1: digits_value(t.debug[1].1),
        DR2: digits_value(t.debug[2].1),
        DR3: digits_value(t.debug[3].1),
        DR6: digits_value(t.debug[4].1),
        DR7: digits_value(t.debug[5].1),
    }
}

/// The whole text of one dump, every line closed by the line terminator.
pub open spec fn dump_text(t: DumpText) -> Seq<char> {
    general_text(t) + status_text(t) + concat(segment_texts(t.segments)) + concat(
        table_texts(t.tables),
    ) + qword_line_text(t.control) + debug_text(t) + (t.diagnostic + seq!['\n']) + (field_text(
        t.efer.0,
        t.efer.1,
    ) + seq!['\n'])
}

/// A dump laid out as the grammar describes it, apart from how many labeled
/// flags the status line has and how many fields each segment line has:
/// the fixed number of lines and of the other fields, well-formed labels,
/// names and digits, and blanks between fields.
pub open spec fn dump_shape_ok(t: DumpText) -> bool {
    &&& t.general.len() == 8
    &&& fields_ok(t.general.take(4))
    &&& fields_ok(t.general.skip(4))
    &&& status_ok(t)
    &&& t.segments.len() == 8
    &&& forall|i: int| 0 <= i < 8 ==> segment_ok(#[trigger] t.segments[i])
    &&& t.tables.len() == 2
    &&& forall|i: int| 0 <= i < 2 ==> table_ok(#[trigger] t.tables[i])
    &&& t.control.len() == 4
    &&& fields_ok(t.control)
    &&& t.debug.len() == 6
    &&& fields_ok(t.debug.take(4))
    &&& fields_ok(t.debug.skip(4))
    &&& all_in(t.diagnostic, CharClass::LineText)
    &&& label_ok(t.efer.0)
    &&& digits_ok(t.efer.1)
}

/// A dump as the grammar describes it: five labeled flags and four fields on
/// every segment line.
pub open spec fn dump_ok(t: DumpText) -> bool {
    &&& dump_shape_ok(t)
    &&& t.hflags.len() == 5
    &&& forall|i: int| 0 <= i < 8 ==> (#[trigger] t.segments[i]).2.len() == 4
}

/// The record that a well-formed dump holds: every field the value of its
/// digits.
pub open spec fn dump_value(t: DumpText) -> CpuView {
    CpuView {
        general_regs: general_value(t),
        status_regs: status_value(t),
        segment_regs: segments_value(t.segments),
        desc_tables: tables_value(t),
        control_regs: control_value(t),
        debug_regs: debug_value(t),
        efer: digits_value(t.efer.1),
    }
}

proof fn lemma_general_text(t: DumpText, rest: Seq<char>)
    requires
        dump_shape_ok(t),
    ensures
        spec_general_regs(general_text(t) + rest) == Ok::<_, ParseError>((general_value(t), rest)),
{
    let a = t.general.take(4);
    let b = t.general.skip(4);
    let r1 = qword_line_text(b) + rest;
    assert(general_text(t) + rest =~= qword_line_text(a) + r1);
    lemma_qword_line_text(a, r1);
    lemma_qword_line_text(b, rest);
}

/// Eight well-formed segment lines of four fields each decode to the values
/// of their fields, line by line in the order ES, CS, SS, DS, FS, GS, LDT, TR.
pub proof fn lemma_segments_text(
    sgs: Seq<(Seq<char>, Seq<char>, Seq<(Seq<char>, Seq<char>)>)>,
    rest: Seq<char>,
)
    requires
        sgs.len() == 8,
        forall|i: int| 0 <= i < 8 ==> segment_ok(#[trigger] sgs[i]) && sgs[i].2.len() == 4,
    ensures
        spec_segment_regs(concat(segment_texts(sgs)) + rest) == Ok::<_, ParseError>(
            (segments_value(sgs), rest),
        ),
{
    let texts = segment_texts(sgs);
    let vals = Seq::new(8, |i: int| segment_value(sgs[i]));
    let ok = |r: Seq<char>| true;
    assert forall|i: int, r: Seq<char>| 0 <= i < texts.len() && ok(r) implies #[trigger] segment_line_fn()(
        texts[i] + r,
    ) == Ok::<_, ParseError>((vals[i], r)) by {
        assert(segment_ok(sgs[i]));
        lemma_segment_text(sgs[i], r);
    }
    lemma_repeat_concat(segment_line_fn(), texts, vals, ok, rest);
}

proof fn lemma_tables_text(t: DumpText, rest: Seq<char>)
    requires
        dump_ok(t),
    ensures
        spec_descriptor_tables(concat(table_texts(t.tables)) + rest) == Ok::<_, ParseError>(
            (tables_value(t), rest),
        ),
{
    let tbs = t.tables;
    let texts = table_texts(tbs);
    let vals = Seq::new(2, |i: int| table_value(tbs[i]));
    let ok = |r: Seq<char>| true;
    assert forall|i: int, r: Seq<char>| 0 <= i < texts.len() && ok(r) implies #[trigger] dt_line_fn()(
        texts[i] + r,
    ) == Ok::<_, ParseError>((vals[i], r)) by {
        assert(table_ok(tbs[i]));
        lemma_table_text(tbs[i], r);
    }
    lemma_repeat_concat(dt_line_fn(), texts, vals, ok, rest);
}

proof fn lemma_debug_text(t: DumpText, rest: Seq<char>)
    requires
        dump_ok(t),
    ensures
        spec_debug_regs(debug_text(t) + rest) == Ok::<_, ParseError>((debug_value(t), rest)),
{
    let a = t.debug.take(4);
    let b = t.debug.skip(4);
    let r1 = qword_line_text(b) + rest;
    assert(debug_text(t) + rest =~= qword_line_text(a) + r1);
    lemma_qword_line_text(a, r1);
    lemma_qword_line_text(b, rest);
}

proof fn lemma_tail_text(t: DumpText, rest: Seq<char>)
    requires
        dump_ok(t),
    ensures
        ({
            let efer_line = field_text(t.efer.0, t.efer.1) + seq!['\n'];
            &&& spec_skipped_line((t.diagnostic + seq!['\n']) + (efer_line + rest))
                == Ok::<_, ParseError>(((), efer_line + rest))
            &&& spec_qword_line(efer_line + rest) == Ok::<_, ParseError>(
                (digits_value(t.efer.1), rest),
            )
        }),
{
    let efer_line = field_text(t.efer.0, t.efer.1) + seq!['\n'];
    let nl = seq!['\n'] + (efer_line + rest);
    assert((t.diagnostic + seq!['\n']) + (efer_line + rest) =~= t.diagnostic + nl);
    lemma_run_of(t.diagnostic, CharClass::LineText, nl);
    assert(nl.drop_first() =~= efer_line + rest);
    let nl2 = seq!['\n'] + rest;
    assert(efer_line + rest =~= field_text(t.efer.0, t.efer.1) + nl2);
    lemma_qword_text(t.efer.0, t.efer.1, nl2);
    assert(nl2.drop_first() =~= rest);
}

/// Every well-formed dump decodes to the numbers written in it, and the
/// decoder leaves whatever follows the dump unread and unchanged.
pub proof fn lemma_decode_dump(t: DumpText, rest: Seq<char>)
    requires
        dump_ok(t),
    ensures
        spec_cpu(dump_text(t) + rest) == Ok::<_, ParseError>((dump_value(t), rest)),
{
    let efer_line = field_text(t.efer.0, t.efer.1) + seq!['\n'];
    let r7 = efer_line + rest;
    let r6 = (t.diagnostic + seq!['\n']) + r7;
    let r5 = debug_text(t) + r6;
    let r4 = qword_line_text(t.control) + r5;
    let r3 = concat(table_texts(t.tables)) + r4;
    let r2 = concat(segment_texts(t.segments)) + r3;
    let r1 = status_text(t) + r2;
    assert(dump_text(t) + rest =~= general_text(t) + r1);
    lemma_general_text(t, r1);
    lemma_status_text(t, r2);
    assert(forall|i: int| 0 <= i < 8 ==> segment_ok(#[trigger] t.segments[i]) && t.segments[i].2.len() == 4);
    lemma_segments_text(t.segments, r3);
    lemma_tables_text(t, r4);
    lemma_qword_line_text(t.control, r5);
    lemma_debug_text(t, r6);
    lemma_tail_text(t, rest);
}

/// Decoding two well-formed dumps written one after the other yields the
/// first record and, as the unread rest, exactly the text of the second.
pub proof fn lemma_decode_two_dumps(t1: DumpText, t2: DumpText)
    requires
        dump_ok(t1),
        dump_ok(t2),
    ensures
        spec_cpu(dump_text(t1) + dump_text(t2)) == Ok::<_, ParseError>(
            (dump_value(t1), dump_text(t2)),
        ),
{
    lemma_decode_dump(t1, dump_text(t2));
}

/// A log of two well-formed dumps is decoded exactly twice: the first call
/// leaves the second dump, the second leaves nothing, and decoding nothing
/// fails.
pub proof fn lemma_log_of_two(t1: DumpText, t2: DumpText)
    requires
        dump_ok(t1),
        dump_ok(t2),
    ensures
        spec_cpu(dump_text(t1) + dump_text(t2)) == Ok::<_, ParseError>(
            (dump_value(t1), dump_text(t2)),
        ),
        spec_cpu(dump_text(t2)) == Ok::<_, ParseError>((dump_value(t2), Seq::<char>::empty())),
        spec_cpu(Seq::<char>::empty()) is Err,
{
    lemma_decode_dump(t1, dump_text(t2));
    lemma_decode_dump(t2, Seq::empty());
    assert(dump_text(t2) + Seq::<char>::empty() =~= dump_text(t2));
    lemma_empty_fails();
}

/// There is no record in an empty text.
proof fn lemma_empty_fails()
    ensures
        spec_cpu(Seq::<char>::empty()) is Err,
{
    let e = Seq::<char>::empty();
    assert(run(e, CharClass::LabelText) == 0);
    assert(e.skip(0) =~= e);
    assert(spec_qword(e) is Err);
    assert(repeat(qword_fn(), e, 0) == Ok::<_, ParseError>((Seq::<u64>::empty(), e)));
    assert(qword_fn()(e) is Err);
    assert(repeat(qword_fn(), e, 1) is Err);
    lemma_repeat_fails(qword_fn(), e, 1, 4);
    assert(spec_general_regs(e) is Err);
}

/// The pieces split at any point.
proof fn lemma_concat_split(texts: Seq<Seq<char>>, k: int)
    requires
        0 <= k <= texts.len(),
    ensures
        concat(texts) == concat(texts.take(k)) + concat(texts.skip(k)),
    decreases texts.len(),
{
    if k == texts.len() {
        assert(texts.take(k) =~= texts);
        assert(texts.skip(k) =~= Seq::<Seq<char>>::empty());
        assert(concat(texts) + Seq::<char>::empty() =~= concat(texts));
    } else {
        let dl = texts.drop_last();
        lemma_concat_split(dl, k);
        assert(dl.take(k) =~= texts.take(k));
        let sk = texts.skip(k);
        assert(sk.drop_last() =~= dl.skip(k));
        assert(sk.last() == texts.last());
        assert(concat(texts) =~= concat(texts.take(k)) + concat(sk));
    }
}

/// The first piece, then the others.
proof fn lemma_concat_first(texts: Seq<Seq<char>>)
    requires
        texts.len() > 0,
    ensures
        concat(texts) == texts[0] + concat(texts.skip(1)),
{
    lemma_concat_split(texts, 1);
    let t1 = texts.take(1);
    assert(t1.drop_last() =~= Seq::<Seq<char>>::empty());
    assert(concat(t1.drop_last()) == Seq::<char>::empty());
    assert(concat(t1) =~= texts[0]);
}

/// A hex field read across a line break, where the next line starts with a
/// name of letters and then a character that is neither a hex digit nor a
/// line terminator, is not followed by a line terminator.
proof fn lemma_field_after_line(nm: Seq<char>, after: Seq<char>)
    requires
        nm.len() > 0,
        all_in(nm, CharClass::Letter),
        after.len() > 0,
        !is_hex_digit(after[0]),
        after[0] != '\n',
    ensures
        match spec_hex_field(seq!['\n'] + (nm + after)) {
            Ok((_, w)) => spec_token(w, '\n') is Err,
            Err(_) => true,
        },
{
    let u = nm + after;
    let s = seq!['\n'] + u;
    assert(s[1] == nm[0]);
    assert(in_class(nm[0], CharClass::Letter));
    lemma_run_is(s, CharClass::Space, 1);
    assert(s.skip(1) =~= u);
    lemma_run_bounds(u, CharClass::HexDigit);
    let n = run(u, CharClass::HexDigit) as int;
    assert(u[nm.len() as int] == after[0]);
    if n > nm.len() {
        assert(in_class(u[nm.len() as int], CharClass::HexDigit));
    }
    if spec_hex(u) is Ok {
        let w = u.skip(n);
        assert(w[0] == u[n]);
        if n < nm.len() {
            assert(u[n] == nm[n]);
            assert(in_class(nm[n], CharClass::Letter));
        } else {
            assert(u[n] == after[0]);
        }
    }
}

/// A labeled flag read across a line break into a well-formed segment line
/// is not followed by a line terminator.
proof fn lemma_hflag_after_line(
    sg: (Seq<char>, Seq<char>, Seq<(Seq<char>, Seq<char>)>),
    r: Seq<char>,
)
    requires
        segment_ok(sg),
        sg.2.len() == 4,
    ensures
        match spec_hflag(seq!['\n'] + (segment_text(sg) + r)) {
            Ok((_, w)) => spec_token(w, '\n') is Err,
            Err(_) => true,
        },
{
    let fs = sg.2;
    let texts = spaced_texts(fs);
    let nl2 = seq!['\n'] + r;
    let v = concat(texts) + nl2;
    let eq = seq!['='] + v;
    let after = sg.1 + eq;
    let u = sg.0 + after;
    let s = seq!['\n'] + u;
    assert(segment_text(sg) + r =~= u);
    assert(s[1] == sg.0[0]);
    assert(in_class(sg.0[0], CharClass::Letter));
    lemma_run_is(s, CharClass::Space, 1);
    assert(s.skip(1) =~= u);
    assert(all_in(sg.0, CharClass::LabelChar)) by {
        assert forall|i: int| 0 <= i < sg.0.len() implies in_class(
            #[trigger] sg.0[i],
            CharClass::LabelChar,
        ) by {
            assert(in_class(sg.0[i], CharClass::Letter));
        }
    }
    if sg.1.len() > 0 {
        assert(after[0] == sg.1[0]);
        assert(in_class(sg.1[0], CharClass::Space));
    } else {
        assert(after =~= eq);
    }
    lemma_run_of(sg.0, CharClass::LabelChar, after);
    if sg.1.len() == 0 {
        assert(eq.drop_first() =~= v);
        lemma_concat_first(texts);
        let rest1 = concat(texts.skip(1)) + nl2;
        assert(v =~= texts[0] + rest1);
        lemma_concat_first(texts.skip(1));
        assert(texts.skip(1)[0] == texts[1]);
        assert(fs[1].0 == fs[1].0);
        assert(fs[1].0.len() > 0);
        assert(rest1[0] == fs[1].0[0]);
        assert(in_class(fs[1].0[0], CharClass::Space));
        assert(fs[0].0 == fs[0].0);
        if fs[0].0.len() > 0 {
            assert(v[0] == fs[0].0[0]);
            assert(in_class(fs[0].0[0], CharClass::Space));
            lemma_run_is(v, CharClass::HexDigit, 0);
        } else {
            assert(texts[0] =~= fs[0].1);
            lemma_hex_text(fs[0].1, rest1);
        }
    }
}

/// A record whose status line has four or six labeled flags instead of five
/// does not decode.
pub proof fn lemma_status_arity(t: DumpText, rest: Seq<char>)
    requires
        dump_shape_ok(t),
        t.hflags.len() == 4 || t.hflags.len() == 6,
        forall|i: int| 0 <= i < 8 ==> (#[trigger] t.segments[i]).2.len() == 4,
    ensures
        spec_cpu(dump_text(t) + rest) is Err,
{
    let efer_line = field_text(t.efer.0, t.efer.1) + seq!['\n'];
    let r7 = efer_line + rest;
    let r6 = (t.diagnostic + seq!['\n']) + r7;
    let r5 = debug_text(t) + r6;
    let r4 = qword_line_text(t.control) + r5;
    let r3 = concat(table_texts(t.tables)) + r4;
    let r2 = concat(segment_texts(t.segments)) + r3;
    let r1 = status_text(t) + r2;
    assert(dump_text(t) + rest =~= general_text(t) + r1);
    lemma_general_text(t, r1);
    lemma_status_fails(t, r3);
    assert(spec_cpu(dump_text(t) + rest) is Err);
}

/// The status line of a record with four or six labeled flags fails to decode.
proof fn lemma_status_fails(t: DumpText, r3: Seq<char>)
    requires
        dump_shape_ok(t),
        t.hflags.len() == 4 || t.hflags.len() == 6,
        forall|i: int| 0 <= i < 8 ==> (#[trigger] t.segments[i]).2.len() == 4,
    ensures
        spec_status_regs(status_text(t) + (concat(segment_texts(t.segments)) + r3)) is Err,
{
    let r2 = concat(segment_texts(t.segments)) + r3;
    lemma_status_head(t, r2);
    let nl = seq!['\n'] + r2;
    let hs = t.hflags;
    let texts = hflag_texts(hs);
    let after = concat(texts) + nl;
    if hs.len() == 4 {
        lemma_hflags_text(hs, nl);
        let sgs = segment_texts(t.segments);
        lemma_concat_first(sgs);
        let r = concat(sgs.skip(1)) + r3;
        assert(r2 =~= segment_text(t.segments[0]) + r);
        assert(segment_ok(t.segments[0]));
        lemma_hflag_after_line(t.segments[0], r);
    } else {
        let h5 = hs.take(5);
        assert(hflags_ok(h5)) by {
            assert forall|i: int| 0 <= i < h5.len() implies #[trigger] h5[i] == hs[i] by {}
        }
        assert(hflag_texts(h5) =~= texts.drop_last());
        let tail = texts[5] + nl;
        assert(after =~= concat(hflag_texts(h5)) + tail);
        assert(hs[5].0.len() > 0);
        assert(tail[0] == hs[5].0[0]);
        assert(in_class(hs[5].0[0], CharClass::Space));
        lemma_hflags_text(h5, tail);
    }
}

/// What follows segment line `k` starts with the name of the next line, a
/// segment or, after the last, a descriptor table, and then a character that
/// is neither a hex digit nor a line terminator.
proof fn lemma_after_segment(t: DumpText, k: int, r: Seq<char>) -> (nm_after: (Seq<char>, Seq<char>))
    requires
        dump_shape_ok(t),
        0 <= k < 8,
    ensures
        concat(segment_texts(t.segments).skip(k + 1)) + (concat(table_texts(t.tables)) + r)
            == nm_after.0 + nm_after.1,
        nm_after.0.len() > 0,
        all_in(nm_after.0, CharClass::Letter),
        nm_after.1.len() > 0,
        !is_hex_digit(nm_after.1[0]),
        nm_after.1[0] != '\n',
{
    let texts = segment_texts(t.segments);
    let z = concat(texts.skip(k + 1)) + (concat(table_texts(t.tables)) + r);
    if k < 7 {
        let next = texts.skip(k + 1);
        lemma_concat_first(next);
        let sg = t.segments[k + 1];
        assert(segment_ok(sg));
        assert(next[0] == segment_text(sg));
        let eq = seq!['='] + concat(spaced_texts(sg.2)) + seq!['\n'];
        let after = sg.1 + eq + (concat(next.skip(1)) + (concat(table_texts(t.tables)) + r));
        assert(z =~= sg.0 + after);
        if sg.1.len() > 0 {
            assert(after[0] == sg.1[0]);
            assert(in_class(sg.1[0], CharClass::Space));
        } else {
            assert(after[0] == '=');
        }
        (sg.0, after)
    } else {
        assert(texts.skip(k + 1) =~= Seq::<Seq<char>>::empty());
        let tts = table_texts(t.tables);
        lemma_concat_first(tts);
        let tb = t.tables[0];
        assert(table_ok(tb));
        let after = seq!['='] + concat(spaced_texts(tb.1)) + seq!['\n'] + (concat(tts.skip(1)) + r);
        assert(z =~= tb.0 + after);
        assert(all_in(tb.0, CharClass::Letter)) by {
            assert(tb.0[1] == 'D' && tb.0[2] == 'T');
        }
        (tb.0, after)
    }
}

/// A segment line with three or five fields fails to decode, given what can
/// follow it in a record.
proof fn lemma_segment_line_arity(t: DumpText, k: int, r: Seq<char>)
    requires
        dump_shape_ok(t),
        0 <= k < 8,
        t.segments[k].2.len() == 3 || t.segments[k].2.len() == 5,
    ensures
        spec_segment_line(
            segment_text(t.segments[k]) + (concat(segment_texts(t.segments).skip(k + 1)) + (concat(
                table_texts(t.tables),
            ) + r)),
        ) is Err,
{
    let sg = t.segments[k];
    assert(segment_ok(sg));
    let z = concat(segment_texts(t.segments).skip(k + 1)) + (concat(table_texts(t.tables)) + r);
    lemma_segment_head(sg, z);
    let nl = seq!['\n'] + z;
    let fs = sg.2;
    let texts = spaced_texts(fs);
    if fs.len() == 3 {
        lemma_spaced_text(fs, nl);
        let na = lemma_after_segment(t, k, r);
        lemma_field_after_line(na.0, na.1);
    } else {
        let f4 = fs.take(4);
        assert(spaced_ok(f4)) by {
            assert forall|i: int| 0 <= i < f4.len() implies #[trigger] f4[i] == fs[i] by {}
        }
        assert(spaced_texts(f4) =~= texts.drop_last());
        let tail = texts[4] + nl;
        assert(concat(texts) + nl =~= concat(spaced_texts(f4)) + tail);
        assert(fs[4].0 == fs[4].0);
        assert(tail[0] == fs[4].0[0]);
        assert(in_class(fs[4].0[0], CharClass::Space));
        lemma_spaced_text(f4, tail);
    }
}

/// The segment lines before line `k`, with four fields each, decode and
/// leave what follows them.
proof fn lemma_segments_before(t: DumpText, k: int, line: Seq<char>)
    requires
        dump_shape_ok(t),
        0 <= k < 8,
        forall|i: int| 0 <= i < 8 && i != k ==> (#[trigger] t.segments[i]).2.len() == 4,
    ensures
        repeat(segment_line_fn(), concat(segment_texts(t.segments).take(k)) + line, k as nat) is Ok,
        repeat(segment_line_fn(), concat(segment_texts(t.segments).take(k)) + line, k as nat)->Ok_0.1
            == line,
{
    let sgs = t.segments;
    let pre = segment_texts(sgs).take(k);
    let vals = Seq::new(k as nat, |i: int| segment_value(sgs[i]));
    let ok = |r: Seq<char>| true;
    assert forall|i: int, r: Seq<char>| 0 <= i < pre.len() && ok(r) implies #[trigger] segment_line_fn()(
        pre[i] + r,
    ) == Ok::<_, ParseError>((vals[i], r)) by {
        assert(segment_ok(sgs[i]));
        assert(sgs[i].2.len() == 4);
        lemma_segment_text(sgs[i], r);
    }
    lemma_repeat_concat(segment_line_fn(), pre, vals, ok, line);
}

/// A record one of whose segment lines has three or five fields instead of
/// four does not decode.
pub proof fn lemma_segment_arity(t: DumpText, k: int, rest: Seq<char>)
    requires
        dump_shape_ok(t),
        t.hflags.len() == 5,
        0 <= k < 8,
        t.segments[k].2.len() == 3 || t.segments[k].2.len() == 5,
        forall|i: int| 0 <= i < 8 && i != k ==> (#[trigger] t.segments[i]).2.len() == 4,
    ensures
        spec_cpu(dump_text(t) + rest) is Err,
{
    let efer_line = field_text(t.efer.0, t.efer.1) + seq!['\n'];
    let r7 = efer_line + rest;
    let r6 = (t.diagnostic + seq!['\n']) + r7;
    let r5 = debug_text(t) + r6;
    let r4 = qword_line_text(t.control) + r5;
    let r3 = concat(table_texts(t.tables)) + r4;
    let r2 = concat(segment_texts(t.segments)) + r3;
    let r1 = status_text(t) + r2;
    assert(dump_text(t) + rest =~= general_text(t) + r1);
    lemma_general_text(t, r1);
    lemma_status_text(t, r2);
    lemma_segments_fail(t, k, r4);
    assert(spec_segment_regs(r2) is Err);
    assert(spec_cpu(dump_text(t) + rest) is Err);
}

/// The segment section of a record with a segment line of the wrong arity
/// fails to decode.
proof fn lemma_segments_fail(t: DumpText, k: int, r4: Seq<char>)
    requires
        dump_shape_ok(t),
        0 <= k < 8,
        t.segments[k].2.len() == 3 || t.segments[k].2.len() == 5,
        forall|i: int| 0 <= i < 8 && i != k ==> (#[trigger] t.segments[i]).2.len() == 4,
    ensures
        spec_segment_regs(concat(segment_texts(t.segments)) + (concat(table_texts(t.tables)) + r4))
            is Err,
{
    let r3 = concat(table_texts(t.tables)) + r4;
    let r2 = concat(segment_texts(t.segments)) + r3;
    let texts = segment_texts(t.segments);
    lemma_concat_split(texts, k);
    let pre = texts.take(k);
    let post = texts.skip(k);
    lemma_concat_first(post);
    assert(post.skip(1) =~= texts.skip(k + 1));
    let z = concat(texts.skip(k + 1)) + r3;
    let line = texts[k] + z;
    assert(r2 =~= concat(pre) + line);
    lemma_segments_before(t, k, line);
    lemma_segment_line_arity(t, k, r4);
    assert(segment_line_fn()(line) is Err);
    assert(repeat(segment_line_fn(), r2, (k + 1) as nat) is Err);
    lemma_repeat_fails(segment_line_fn(), r2, (k + 1) as nat, 8);
}

} // verus!
