//! Field decoders: a labeled hex number, a labeled flag, the bracketed flag
//! set, a segment descriptor, a descriptor-table entry, and the line-level
//! decoders built on them.
use crate::scan::{
    fail, hex_number, lemma_run_bounds, lift, lift_view, many1, run, scan, spaces, spec_hex, spec_many1,
    spec_spaces, spec_token, token, CharClass, Expected, ParseError, SpecResult,
};
use vstd::prelude::*;

verus! {

/// A labeled status flag of the monitor, such as `CPL=0`: its label and value.
#[derive(Debug, PartialEq, Eq)]
pub struct HFlag(pub String, pub u64);

impl View for HFlag {
    type V = (Seq<char>, u64);

    open spec fn view(&self) -> (Seq<char>, u64) {
        (self.0@, self.1)
    }
}

/// The model of a decoded list of flags.
pub open spec fn hflags_view(v: Seq<HFlag>) -> Seq<(Seq<char>, u64)> {
    views(v)
}

/// Relies on `String`'s `FromIterator<&char>`: the string holds the
/// characters in the order given.
#[verifier::external_body]
fn chars_to_string(cs: &[char]) -> (r: String)
    ensures
        r@ == cs@,
{
    cs.iter().collect()
}

/// Follows a decoder's outcome with the line terminator.
pub open spec fn then_newline<T>(r: SpecResult<T>) -> SpecResult<T> {
    match r {
        Ok((v, t)) => match spec_token(t, '\n') {
            Ok((_, u)) => Ok((v, u)),
            Err(e) => Err(e),
        },
        Err(e) => Err(e),
    }
}

/// `p` applied `n` times in a row, each time to what the previous left; the
/// values in order.
pub open spec fn repeat<T>(p: spec_fn(Seq<char>) -> SpecResult<T>, s: Seq<char>, n: nat) -> SpecResult<Seq<T>>
    decreases n,
{
    if n == 0 {
        Ok((Seq::empty(), s))
    } else {
        match repeat(p, s, (n - 1) as nat) {
            Ok((vs, t)) => match p(t) {
                Ok((v, u)) => Ok((vs.push(v), u)),
                Err(e) => Err(e),
            },
            Err(e) => Err(e),
        }
    }
}

/// Once a repetition has failed, repeating more often fails the same way.
pub proof fn lemma_repeat_fails<T>(p: spec_fn(Seq<char>) -> SpecResult<T>, s: Seq<char>, k: nat, n: nat)
    requires
        k <= n,
        repeat(p, s, k) is Err,
    ensures
        repeat(p, s, n) == repeat(p, s, k),
    decreases n - k,
{
    if k < n {
        lemma_repeat_fails(p, s, k, (n - 1) as nat);
    }
}

/// A successful repetition yields one value per step.
pub proof fn lemma_repeat_len<T>(p: spec_fn(Seq<char>) -> SpecResult<T>, s: Seq<char>, n: nat)
    requires
        repeat(p, s, n) is Ok,
    ensures
        repeat(p, s, n)->Ok_0.0.len() == n,
    decreases n,
{
    if n > 0 {
        lemma_repeat_len(p, s, (n - 1) as nat);
    }
}

/// A labeled hex number `LABEL=hex`: the label is any text up to the first
/// `=`, line terminators included.
pub open spec fn spec_qword(s: Seq<char>) -> SpecResult<u64> {
    let t = s.skip(run(s, CharClass::LabelText) as int);
    match spec_token(t, '=') {
        Ok((_, u)) => spec_hex(u),
        Err(e) => Err(e),
    }
}

/// [`spec_qword`] as a value, for repetition.
pub open spec fn qword_fn() -> spec_fn(Seq<char>) -> SpecResult<u64> {
    |s: Seq<char>| spec_qword(s)
}

/// Decodes a labeled hex number such as `EIP=00007c00`.
pub fn qword_parser(input: &[char]) -> (r: Result<(u64, &[char]), ParseError>)
    ensures
        lift(r) == spec_qword(input@),
{
    let n = scan(input, CharClass::LabelText);
    proof {
        lemma_run_bounds(input@, CharClass::LabelText);
    }
    let t = vstd::slice::slice_subrange(input, n, input.len());
    assert(t@ =~= input@.skip(n as int));
    let (_, u) = token(t, '=')?;
    hex_number(u)
}

/// The views of the values, in order.
pub open spec fn views<T: View>(vs: Seq<T>) -> Seq<T::V> {
    vs.map_values(|v: T| v@)
}

/// Applies the decoder `step`, whose model is `p`, `n` times in a row, each
/// time to what the previous application left.
pub fn repeat_parse<'a, T: View, F: Fn(&'a [char]) -> Result<(T, &'a [char]), ParseError>>(
    input: &'a [char],
    n: usize,
    step: F,
    Ghost(p): Ghost<spec_fn(Seq<char>) -> SpecResult<T::V>>,
) -> (r: Result<(Vec<T>, &'a [char]), ParseError>)
    requires
        forall|s: &'a [char]| #[trigger] step.requires((s,)),
        forall|s: &'a [char], r: Result<(T, &'a [char]), ParseError>|
            #[trigger] step.ensures((s,), r) ==> lift_view(r) == p(s@),
    ensures
        match r {
            Ok((vs, rest)) => {
                &&& vs@.len() == n
                &&& repeat(p, input@, n as nat) == Ok::<_, ParseError>(
                    (views(vs@), rest@),
                )
            },
            Err(e) => repeat(p, input@, n as nat) == Err::<(Seq<T::V>, Seq<char>), _>(e),
        },
{
    let mut vs: Vec<T> = Vec::new();
    let mut rest = input;
    let mut k: usize = 0;
    assert(views(vs@) =~= Seq::empty());
    while k < n
        invariant
            k <= n,
            vs@.len() == k,
            forall|s: &'a [char]| #[trigger] step.requires((s,)),
            forall|s: &'a [char], r: Result<(T, &'a [char]), ParseError>|
                #[trigger] step.ensures((s,), r) ==> lift_view(r) == p(s@),
            repeat(p, input@, k as nat) == Ok::<_, ParseError>(
                (views(vs@), rest@),
            ),
        decreases n - k,
    {
        match step(rest) {
            Ok((v, r)) => {
                let ghost before = vs@;
                vs.push(v);
                assert(views(vs@) =~= views(before).push(v@));
                rest = r;
            },
            Err(e) => {
                proof {
                    lemma_repeat_fails(p, input@, (k + 1) as nat, n as nat);
                }
                return Err(e);
            },
        }
        k = k + 1;
    }
    Ok((vs, rest))
}

/// Decodes `n` labeled hex numbers in a row.
pub fn qwords(input: &[char], n: usize) -> (r: Result<(Vec<u64>, &[char]), ParseError>)
    ensures
        match r {
            Ok((vs, rest)) => repeat(qword_fn(), input@, n as nat) == Ok::<_, ParseError>((vs@, rest@)),
            Err(e) => repeat(qword_fn(), input@, n as nat) == Err::<(Seq<u64>, Seq<char>), _>(e),
        },
{
    let (vs, rest) = repeat_parse(input, n, qword_parser, Ghost(qword_fn()))?;
    assert(views(vs@) =~= vs@);
    Ok((vs, rest))
}

/// A labeled hex number that ends its line, such as `EFER=0000000000000000`.
pub open spec fn spec_qword_line(s: Seq<char>) -> SpecResult<u64> {
    then_newline(spec_qword(s))
}

/// Decodes a labeled hex number followed by the line terminator.
pub fn qword_line_parser(input: &[char]) -> (r: Result<(u64, &[char]), ParseError>)
    ensures
        lift(r) == spec_qword_line(input@),
{
    let (v, t) = qword_parser(input)?;
    let (_, u) = token(t, '\n')?;
    Ok((v, u))
}

/// A hex number after optional white space: one field of a segment or
/// descriptor-table line.
pub open spec fn spec_hex_field(s: Seq<char>) -> SpecResult<u64> {
    spec_hex(spec_spaces(s))
}

/// [`spec_hex_field`] as a value, for repetition.
pub open spec fn hex_field_fn() -> spec_fn(Seq<char>) -> SpecResult<u64> {
    |s: Seq<char>| spec_hex_field(s)
}

/// Decodes a hex number after optional white space.
pub fn hex_field(input: &[char]) -> (r: Result<(u64, &[char]), ParseError>)
    ensures
        lift(r) == spec_hex_field(input@),
{
    hex_number(spaces(input))
}

/// Decodes `n` hex numbers, each after optional white space.
pub fn hex_fields(input: &[char], n: usize) -> (r: Result<(Vec<u64>, &[char]), ParseError>)
    ensures
        match r {
            Ok((vs, rest)) => repeat(hex_field_fn(), input@, n as nat) == Ok::<_, ParseError>((vs@, rest@)),
            Err(e) => repeat(hex_field_fn(), input@, n as nat) == Err::<(Seq<u64>, Seq<char>), _>(e),
        },
{
    let (vs, rest) = repeat_parse(input, n, hex_field, Ghost(hex_field_fn()))?;
    assert(views(vs@) =~= vs@);
    Ok((vs, rest))
}

/// A labeled flag `NAME=hex` after optional white space; the name is one or more
/// ASCII letters and digits.
pub open spec fn spec_hflag(s: Seq<char>) -> SpecResult<(Seq<char>, u64)> {
    match spec_many1(spec_spaces(s), CharClass::LabelChar, Expected::LabelChar) {
        Ok((name, t)) => match spec_token(t, '=') {
            Ok((_, u)) => match spec_hex(u) {
                Ok((v, w)) => Ok(((name, v), w)),
                Err(e) => Err(e),
            },
            Err(e) => Err(e),
        },
        Err(e) => Err(e),
    }
}

/// [`spec_hflag`] as a value, for repetition.
pub open spec fn hflag_fn() -> spec_fn(Seq<char>) -> SpecResult<(Seq<char>, u64)> {
    |s: Seq<char>| spec_hflag(s)
}

/// Decodes a labeled flag such as `A20=1`.
pub fn hflag_parser(input: &[char]) -> (r: Result<(HFlag, &[char]), ParseError>)
    ensures
        match r {
            Ok((h, rest)) => spec_hflag(input@) == Ok::<_, ParseError>((h@, rest@)),
            Err(e) => spec_hflag(input@) == Err::<((Seq<char>, u64), Seq<char>), _>(e),
        },
{
    let (name, t) = many1(spaces(input), CharClass::LabelChar, Expected::LabelChar)?;
    let (_, u) = token(t, '=')?;
    let (v, w) = hex_number(u)?;
    Ok((HFlag(chars_to_string(name), v), w))
}

/// Decodes `n` labeled flags in a row.
pub fn hflags(input: &[char], n: usize) -> (r: Result<(Vec<HFlag>, &[char]), ParseError>)
    ensures
        match r {
            Ok((hs, rest)) => repeat(hflag_fn(), input@, n as nat) == Ok::<_, ParseError>((hflags_view(hs@), rest@)),
            Err(e) => repeat(hflag_fn(), input@, n as nat) == Err::<(Seq<(Seq<char>, u64)>, Seq<char>), _>(e),
        },
{
    repeat_parse(input, n, hflag_parser, Ghost(hflag_fn()))
}

/// The bracketed flag set `[...]` after optional white space: one or more of the
/// symbols `DOSZAPC-`, in order.
pub open spec fn spec_eflags(s: Seq<char>) -> SpecResult<Seq<char>> {
    match spec_token(spec_spaces(s), '[') {
        Ok((_, t)) => match spec_many1(t, CharClass::FlagChar, Expected::FlagChar) {
            Ok((flags, u)) => match spec_token(u, ']') {
                Ok((_, w)) => Ok((flags, w)),
                Err(e) => Err(e),
            },
            Err(e) => Err(e),
        },
        Err(e) => Err(e),
    }
}

/// Decodes a bracketed flag set such as `[-O----C]`.
pub fn eflags_parser(input: &[char]) -> (r: Result<(Vec<char>, &[char]), ParseError>)
    ensures
        match r {
            Ok((flags, rest)) => spec_eflags(input@) == Ok::<_, ParseError>((flags@, rest@)),
            Err(e) => spec_eflags(input@) == Err::<(Seq<char>, Seq<char>), _>(e),
        },
{
    let (_, t) = token(spaces(input), '[')?;
    let (flags, u) = many1(t, CharClass::FlagChar, Expected::FlagChar)?;
    let (_, w) = token(u, ']')?;
    Ok((vstd::slice::slice_to_vec(flags), w))
}

/// A segment descriptor `NAME =sel base limit flags`: a name of ASCII
/// letters, optional white space, `=`, then exactly four hex numbers.
pub open spec fn spec_segment(s: Seq<char>) -> SpecResult<(u64, u64, u64, u64)> {
    match spec_many1(s, CharClass::Letter, Expected::Letter) {
        Ok((_, t)) => match spec_token(spec_spaces(t), '=') {
            Ok((_, u)) => match repeat(hex_field_fn(), u, 4) {
                Ok((vs, w)) => Ok(((vs[0], vs[1], vs[2], vs[3]), w)),
                Err(e) => Err(e),
            },
            Err(e) => Err(e),
        },
        Err(e) => Err(e),
    }
}

/// Decodes a segment descriptor such as `ES =0000 00000000 0000ffff 00009300`.
pub fn segment_parser(input: &[char]) -> (r: Result<((u64, u64, u64, u64), &[char]), ParseError>)
    ensures
        lift(r) == spec_segment(input@),
{
    let (_, t) = many1(input, CharClass::Letter, Expected::Letter)?;
    let (_, u) = token(spaces(t), '=')?;
    let (vs, w) = hex_fields(u, 4)?;
    proof {
        lemma_repeat_len(hex_field_fn(), u@, 4);
    }
    Ok(((vs[0], vs[1], vs[2], vs[3]), w))
}

/// [`spec_segment_line`] as a value, for repetition.
pub open spec fn segment_line_fn() -> spec_fn(Seq<char>) -> SpecResult<(u64, u64, u64, u64)> {
    |s: Seq<char>| spec_segment_line(s)
}

/// A segment descriptor that ends its line.
pub open spec fn spec_segment_line(s: Seq<char>) -> SpecResult<(u64, u64, u64, u64)> {
    then_newline(spec_segment(s))
}

/// Decodes a segment descriptor followed by the line terminator.
pub fn segment_line_parser(input: &[char]) -> (r: Result<((u64, u64, u64, u64), &[char]), ParseError>)
    ensures
        lift(r) == spec_segment_line(input@),
{
    let (v, t) = segment_parser(input)?;
    let (_, u) = token(t, '\n')?;
    Ok((v, u))
}

/// Whether `s` starts with the name of a descriptor table, `GDT` or `IDT`.
pub open spec fn starts_with_table_name(s: Seq<char>) -> bool {
    s.len() >= 3 && (s.take(3) == seq!['G', 'D', 'T'] || s.take(3) == seq!['I', 'D', 'T'])
}

/// A descriptor-table entry `GDT=base limit` or `IDT=base limit`.
pub open spec fn spec_dt(s: Seq<char>) -> SpecResult<(u64, u64)> {
    if !starts_with_table_name(s) {
        fail(s, Expected::TableName)
    } else {
        match spec_token(s.skip(3), '=') {
            Ok((_, u)) => match repeat(hex_field_fn(), u, 2) {
                Ok((vs, w)) => Ok(((vs[0], vs[1]), w)),
                Err(e) => Err(e),
            },
            Err(e) => Err(e),
        }
    }
}

/// Decodes a descriptor-table entry such as `GDT=     000f6c00 00000037`.
pub fn dt_parser(input: &[char]) -> (r: Result<((u64, u64), &[char]), ParseError>)
    ensures
        lift(r) == spec_dt(input@),
{
    let named = input.len() >= 3 && (input[0] == 'G' || input[0] == 'I') && input[1] == 'D'
        && input[2] == 'T';
    assert(named == starts_with_table_name(input@)) by {
        if input@.len() >= 3 {
            assert(input@.take(3) =~= seq![input@[0], input@[1], input@[2]]);
        }
    }
    if !named {
        return Err(ParseError { remaining: input.len(), expected: Expected::TableName });
    }
    let t = vstd::slice::slice_subrange(input, 3, input.len());
    assert(t@ =~= input@.skip(3));
    let (_, u) = token(t, '=')?;
    let (vs, w) = hex_fields(u, 2)?;
    proof {
        lemma_repeat_len(hex_field_fn(), u@, 2);
    }
    Ok(((vs[0], vs[1]), w))
}

/// [`spec_dt_line`] as a value, for repetition.
pub open spec fn dt_line_fn() -> spec_fn(Seq<char>) -> SpecResult<(u64, u64)> {
    |s: Seq<char>| spec_dt_line(s)
}

/// A descriptor-table entry that ends its line.
pub open spec fn spec_dt_line(s: Seq<char>) -> SpecResult<(u64, u64)> {
    then_newline(spec_dt(s))
}

/// Decodes a descriptor-table entry followed by the line terminator.
pub fn dt_line_parser(input: &[char]) -> (r: Result<((u64, u64), &[char]), ParseError>)
    ensures
        lift(r) == spec_dt_line(input@),
{
    let (v, t) = dt_parser(input)?;
    let (_, u) = token(t, '\n')?;
    Ok((v, u))
}

/// A line whose content is discarded: everything up to and including the
/// next line terminator.
pub open spec fn spec_skipped_line(s: Seq<char>) -> SpecResult<()> {
    spec_token(s.skip(run(s, CharClass::LineText) as int), '\n')
}

/// Skips the rest of the current line, terminator included.
pub fn qemu_internal_line_parser(input: &[char]) -> (r: Result<((), &[char]), ParseError>)
    ensures
        lift(r) == spec_skipped_line(input@),
{
    let n = scan(input, CharClass::LineText);
    proof {
        lemma_run_bounds(input@, CharClass::LineText);
    }
    let t = vstd::slice::slice_subrange(input, n, input.len());
    assert(t@ =~= input@.skip(n as int));
    token(t, '\n')
}

} // verus!
