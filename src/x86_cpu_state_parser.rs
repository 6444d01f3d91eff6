//! The record decoded from one CPU state dump, its sections, and the
//! decoders that assemble them.
#![allow(non_snake_case)]

use crate::scan::{lift, token, ParseError, SpecResult};
use crate::x86_element_parser::{
    dt_line_fn, dt_line_parser, eflags_parser, hflag_fn, hflags, hflags_view, lemma_repeat_len,
    qemu_internal_line_parser, qword_fn, qword_line_parser, qword_parser, qwords, repeat,
    repeat_parse, segment_line_fn, segment_line_parser, spec_eflags, spec_qword, spec_qword_line,
    spec_skipped_line, then_newline, views, HFlag,
};
use vstd::prelude::*;

verus! {

/// The general-purpose registers, in the order the dump prints them.
#[derive(Clone, Copy, Debug, PartialEq, Eq, Structural)]
pub struct GeneralRegisters {
    pub EAX: u64,
    pub EBX: u64,
    pub ECX: u64,
    pub EDX: u64,
    pub ESI: u64,
    pub EDI: u64,
    pub EBP: u64,
    pub ESP: u64,
}

/// Instruction pointer, flags register, its symbolic flag set and the
/// monitor's five labeled flags.
#[derive(Debug, PartialEq, Eq)]
pub struct StatusRegisters {
    pub EIP: u64,
    pub EFLAGS_RAW: u64,
    pub EFLAGS: Vec<char>,
    pub HFLAGS: Vec<HFlag>,
}

/// The model of [`StatusRegisters`].
pub struct StatusView {
    pub eip: u64,
    pub eflags_raw: u64,
    pub eflags: Seq<char>,
    pub hflags: Seq<(Seq<char>, u64)>,
}

impl View for StatusRegisters {
    type V = StatusView;

    open spec fn view(&self) -> StatusView {
        StatusView {
            eip: self.EIP,
            eflags_raw: self.EFLAGS_RAW,
            eflags: self.EFLAGS@,
            hflags: hflags_view(self.HFLAGS@),
        }
    }
}

/// Each segment register as (selector, base, limit, access flags).
#[derive(Clone, Copy, Debug, PartialEq, Eq)]
pub struct SegmentRegisters {
    pub ES: (u64, u64, u64, u64),
    pub CS: (u64, u64, u64, u64),
    pub SS: (u64, u64, u64, u64),
    pub DS: (u64, u64, u64, u64),
    pub FS: (u64, u64, u64, u64),
    pub GS: (u64, u64, u64, u64),
    pub LDT: (u64, u64, u64, u64),
    pub TR: (u64, u64, u64, u64),
}

/// Each descriptor table as (base, limit).
#[derive(Clone, Copy, Debug, PartialEq, Eq)]
pub struct DescriptorTable {
    pub GDT: (u64, u64),
    pub IDT: (u64, u64),
}

/// The four control registers of the dump's control line, bound by position.
#[derive(Clone, Copy, Debug, PartialEq, Eq, Structural)]
pub struct ControlRegs {
    pub CR0: u64,
    pub CR1: u64,
    pub CR2: u64,
    pub CR3: u64,
}

/// The debug registers, printed over two lines.
#[derive(Clone, Copy, Debug, PartialEq, Eq, Structural)]
pub struct DebugRegs {
    pub DR0: u64,
    pub DR1: u64,
    pub DR2: u64,
    pub DR3: u64,
    pub DR6: u64,
    pub DR7: u64,
}

/// One decoded CPU state dump.
#[derive(Debug, PartialEq, Eq)]
pub struct Cpu {
    pub general_regs: GeneralRegisters,
    pub status_regs: StatusRegisters,
    pub segment_regs: SegmentRegisters,
    pub desc_tables: DescriptorTable,
    pub control_regs: ControlRegs,
    pub debug_regs: DebugRegs,
    pub efer: u64,
}

/// The model of [`Cpu`].
pub struct CpuView {
    pub general_regs: GeneralRegisters,
    pub status_regs: StatusView,
    pub segment_regs: SegmentRegisters,
    pub desc_tables: DescriptorTable,
    pub control_regs: ControlRegs,
    pub debug_regs: DebugRegs,
    pub efer: u64,
}

impl View for Cpu {
    type V = CpuView;

    open spec fn view(&self) -> CpuView {
        CpuView {
            general_regs: self.general_regs,
            status_regs: self.status_regs@,
            segment_regs: self.segment_regs,
            desc_tables: self.desc_tables,
            control_regs: self.control_regs,
            debug_regs: self.debug_regs,
            efer: self.efer,
        }
    }
}

/// `n` labeled hex numbers, then the line terminator.
pub open spec fn spec_qwords_line(s: Seq<char>, n: nat) -> SpecResult<Seq<u64>> {
    then_newline(repeat(qword_fn(), s, n))
}

/// Decodes `n` labeled hex numbers and the line terminator after them.
fn qwords_line(input: &[char], n: usize) -> (r: Result<(Vec<u64>, &[char]), ParseError>)
    ensures
        match r {
            Ok((vs, rest)) => spec_qwords_line(input@, n as nat) == Ok::<_, ParseError>(
                (vs@, rest@),
            ),
            Err(e) => spec_qwords_line(input@, n as nat) == Err::<(Seq<u64>, Seq<char>), _>(e),
        },
        r is Ok ==> r->Ok_0.0@.len() == n,
{
    let (vs, t) = qwords(input, n)?;
    proof {
        lemma_repeat_len(qword_fn(), input@, n as nat);
    }
    let (_, u) = token(t, '\n')?;
    Ok((vs, u))
}

/// Two lines of four labeled hex numbers: EAX EBX ECX EDX, then ESI EDI EBP ESP.
pub open spec fn spec_general_regs(s: Seq<char>) -> SpecResult<GeneralRegisters> {
    match spec_qwords_line(s, 4) {
        Ok((a, t)) => match spec_qwords_line(t, 4) {
            Ok((b, u)) => Ok(
                (
                    GeneralRegisters {
                        EAX: a[0],
                        EBX: a[1],
                        ECX: a[2],
                        EDX: a[3],
                        ESI: b[0],
                        EDI: b[1],
                        EBP: b[2],
                        ESP: b[3],
                    },
                    u,
                ),
            ),
            Err(e) => Err(e),
        },
        Err(e) => Err(e),
    }
}

/// Decodes the general-register section.
pub fn general_regs_parser(input: &[char]) -> (r: Result<(GeneralRegisters, &[char]), ParseError>)
    ensures
        lift(r) == spec_general_regs(input@),
{
    let (a, t) = qwords_line(input, 4)?;
    let (b, u) = qwords_line(t, 4)?;
    Ok(
        (
            GeneralRegisters {
                EAX: a[0],
                EBX: a[1],
                ECX: a[2],
                EDX: a[3],
                ESI: b[0],
                EDI: b[1],
                EBP: b[2],
                ESP: b[3],
            },
            u,
        ),
    )
}

/// `EIP=hex EFL=hex [flags]` and exactly five labeled flags, then the line
/// terminator.
pub open spec fn spec_status_regs(s: Seq<char>) -> SpecResult<StatusView> {
    match spec_qword(s) {
        Ok((eip, t)) => match spec_qword(t) {
            Ok((efl, u)) => match spec_eflags(u) {
                Ok((flags, w)) => match then_newline(repeat(hflag_fn(), w, 5)) {
                    Ok((hs, x)) => Ok(
                        (StatusView { eip, eflags_raw: efl, eflags: flags, hflags: hs }, x),
                    ),
                    Err(e) => Err(e),
                },
                Err(e) => Err(e),
            },
            Err(e) => Err(e),
        },
        Err(e) => Err(e),
    }
}

/// Decodes the status-register line.
pub fn status_regs_parser(input: &[char]) -> (r: Result<(StatusRegisters, &[char]), ParseError>)
    ensures
        match r {
            Ok((v, rest)) => spec_status_regs(input@) == Ok::<_, ParseError>((v@, rest@)),
            Err(e) => spec_status_regs(input@) == Err::<(StatusView, Seq<char>), _>(e),
        },
{
    let (eip, t) = qword_parser(input)?;
    let (efl, u) = qword_parser(t)?;
    let (flags, w) = eflags_parser(u)?;
    let (hs, x) = hflags(w, 5)?;
    let (_, y) = token(x, '\n')?;
    Ok((StatusRegisters { EIP: eip, EFLAGS_RAW: efl, EFLAGS: flags, HFLAGS: hs }, y))
}

/// Decodes `n` segment lines in a row.
fn segment_lines(input: &[char], n: usize) -> (r: Result<(Vec<(u64, u64, u64, u64)>, &[char]), ParseError>)
    ensures
        match r {
            Ok((vs, rest)) => repeat(segment_line_fn(), input@, n as nat) == Ok::<_, ParseError>(
                (vs@, rest@),
            ),
            Err(e) => repeat(segment_line_fn(), input@, n as nat) == Err::<(Seq<(u64, u64, u64, u64)>, Seq<char>), _>(e),
        },
        r is Ok ==> r->Ok_0.0@.len() == n,
{
    let (vs, rest) = repeat_parse(input, n, segment_line_parser, Ghost(segment_line_fn()))?;
    assert(views(vs@) =~= vs@);
    Ok((vs, rest))
}

/// Eight segment lines: ES, CS, SS, DS, FS, GS, LDT, TR.
pub open spec fn spec_segment_regs(s: Seq<char>) -> SpecResult<SegmentRegisters> {
    match repeat(segment_line_fn(), s, 8) {
        Ok((v, t)) => Ok(
            (
                SegmentRegisters {
                    ES: v[0],
                    CS: v[1],
                    SS: v[2],
                    DS: v[3],
                    FS: v[4],
                    GS: v[5],
                    LDT: v[6],
                    TR: v[7],
                },
                t,
            ),
        ),
        Err(e) => Err(e),
    }
}

/// Decodes the segment-register section.
pub fn segment_regs_parser(input: &[char]) -> (r: Result<(SegmentRegisters, &[char]), ParseError>)
    ensures
        lift(r) == spec_segment_regs(input@),
{
    let (v, t) = segment_lines(input, 8)?;
    Ok(
        (
            SegmentRegisters {
                ES: v[0],
                CS: v[1],
                SS: v[2],
                DS: v[3],
                FS: v[4],
                GS: v[5],
                LDT: v[6],
                TR: v[7],
            },
            t,
        ),
    )
}

/// Decodes `n` descriptor-table lines in a row.
fn dt_lines(input: &[char], n: usize) -> (r: Result<(Vec<(u64, u64)>, &[char]), ParseError>)
    ensures
        match r {
            Ok((vs, rest)) => repeat(dt_line_fn(), input@, n as nat) == Ok::<_, ParseError>(
                (vs@, rest@),
            ),
            Err(e) => repeat(dt_line_fn(), input@, n as nat) == Err::<(Seq<(u64, u64)>, Seq<char>), _>(e),
        },
        r is Ok ==> r->Ok_0.0@.len() == n,
{
    let (vs, rest) = repeat_parse(input, n, dt_line_parser, Ghost(dt_line_fn()))?;
    assert(views(vs@) =~= vs@);
    Ok((vs, rest))
}

/// Two descriptor-table lines: GDT, then IDT.
pub open spec fn spec_descriptor_tables(s: Seq<char>) -> SpecResult<DescriptorTable> {
    match repeat(dt_line_fn(), s, 2) {
        Ok((v, t)) => Ok((DescriptorTable { GDT: v[0], IDT: v[1] }, t)),
        Err(e) => Err(e),
    }
}

/// Decodes the descriptor-table section.
pub fn descriptor_tables_parser(input: &[char]) -> (r: Result<(DescriptorTable, &[char]), ParseError>)
    ensures
        lift(r) == spec_descriptor_tables(input@),
{
    let (v, t) = dt_lines(input, 2)?;
    Ok((DescriptorTable { GDT: v[0], IDT: v[1] }, t))
}

/// One line of four labeled hex numbers, bound to CR0..CR3 by position.
pub open spec fn spec_control_regs(s: Seq<char>) -> SpecResult<ControlRegs> {
    match spec_qwords_line(s, 4) {
        Ok((a, t)) => Ok((ControlRegs { CR0: a[0], CR1: a[1], CR2: a[2], CR3: a[3] }, t)),
        Err(e) => Err(e),
    }
}

/// Decodes the control-register line.
pub fn control_regs_parser(input: &[char]) -> (r: Result<(ControlRegs, &[char]), ParseError>)
    ensures
        lift(r) == spec_control_regs(input@),
{
    let (a, t) = qwords_line(input, 4)?;
    Ok((ControlRegs { CR0: a[0], CR1: a[1], CR2: a[2], CR3: a[3] }, t))
}

/// A line of four labeled hex numbers (DR0..DR3), then a line of two (DR6, DR7).
pub open spec fn spec_debug_regs(s: Seq<char>) -> SpecResult<DebugRegs> {
    match spec_qwords_line(s, 4) {
        Ok((a, t)) => match spec_qwords_line(t, 2) {
            Ok((b, u)) => Ok(
                (
                    DebugRegs { DR0: a[0], DR1: a[1], DR2: a[2], DR3: a[3], DR6: b[0], DR7: b[1] },
                    u,
                ),
            ),
            Err(e) => Err(e),
        },
        Err(e) => Err(e),
    }
}

/// Decodes the two debug-register lines.
pub fn debug_regs_parser(input: &[char]) -> (r: Result<(DebugRegs, &[char]), ParseError>)
    ensures
        lift(r) == spec_debug_regs(input@),
{
    let (a, t) = qwords_line(input, 4)?;
    let (b, u) = qwords_line(t, 2)?;
    Ok((DebugRegs { DR0: a[0], DR1: a[1], DR2: a[2], DR3: a[3], DR6: b[0], DR7: b[1] }, u))
}

/// One whole record: the six sections in order, one discarded line, and the
/// EFER line.
pub open spec fn spec_cpu(s: Seq<char>) -> SpecResult<CpuView> {
    match spec_general_regs(s) {
        Ok((g, s1)) => match spec_status_regs(s1) {
            Ok((st, s2)) => match spec_segment_regs(s2) {
                Ok((sg, s3)) => match spec_descriptor_tables(s3) {
                    Ok((dt, s4)) => match spec_control_regs(s4) {
                        Ok((cr, s5)) => match spec_debug_regs(s5) {
                            Ok((dr, s6)) => match spec_skipped_line(s6) {
                                Ok((_, s7)) => match spec_qword_line(s7) {
                                    Ok((efer, s8)) => Ok(
                                        (
                                            CpuView {
                                                general_regs: g,
                                                status_regs: st,
                                                segment_regs: sg,
                                                desc_tables: dt,
                                                control_regs: cr,
                                                debug_regs: dr,
                                                efer,
                                            },
                                            s8,
                                        ),
                                    ),
                                    Err(e) => Err(e),
                                },
                                Err(e) => Err(e),
                            },
                            Err(e) => Err(e),
                        },
                        Err(e) => Err(e),
                    },
                    Err(e) => Err(e),
                },
                Err(e) => Err(e),
            },
            Err(e) => Err(e),
        },
        Err(e) => Err(e),
    }
}

/// Decodes one CPU state record at the start of `input`.
///
/// On success it hands back the record and the unread rest of `input`, so a
/// log of several records is decoded by calling it again on that rest until
/// it fails.
pub fn x86_cpu_state_parser(input: &[char]) -> (r: Result<(Cpu, &[char]), ParseError>)
    ensures
        match r {
            Ok((c, rest)) => spec_cpu(input@) == Ok::<_, ParseError>((c@, rest@)),
            Err(e) => spec_cpu(input@) == Err::<(CpuView, Seq<char>), _>(e),
        },
{
    let (general_regs, s1) = general_regs_parser(input)?;
    let (status_regs, s2) = status_regs_parser(s1)?;
    let (segment_regs, s3) = segment_regs_parser(s2)?;
    let (desc_tables, s4) = descriptor_tables_parser(s3)?;
    let (control_regs, s5) = control_regs_parser(s4)?;
    let (debug_regs, s6) = debug_regs_parser(s5)?;
    let (_, s7) = qemu_internal_line_parser(s6)?;
    let (efer, s8) = qword_line_parser(s7)?;
    Ok(
        (
            Cpu {
                general_regs,
                status_regs,
                segment_regs,
                desc_tables,
                control_regs,
                debug_regs,
                efer,
            },
            s8,
        ),
    )
}

} // verus!
