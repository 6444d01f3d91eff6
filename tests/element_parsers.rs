use qemu_from::x86_element_parser::{
    dt_line_parser, dt_parser, eflags_parser, hflag_parser, hflags, qemu_internal_line_parser,
    qword_line_parser, qword_parser, segment_line_parser, segment_parser,
};
use qemu_from::{Expected, HFlag, ParseError};

fn chars(s: &str) -> Vec<char> {
    s.chars().collect()
}

fn empty() -> &'static [char] {
    &[]
}

fn flag(name: &str, value: u64) -> HFlag {
    HFlag(name.to_string(), value)
}

#[test]
fn register_parser_get_segment_register() {
    let input = chars("ES =0000 00000000 0000ffff 00009300");
    let result = segment_parser(&input);
    assert_eq!(result, Ok(((0, 0, 0xffff, 0x9300), empty())));
}

#[test]
fn register_parser_qword() {
    let input = chars("EIP=00007c00");
    let result = qword_parser(&input);
    assert_eq!(result, Ok((0x7c00, empty())));
}

#[test]
fn register_parser_hflags() {
    let input = chars("CPL=0 II=0 A20=1 SMM=0 HLT=0");
    let (res, rest) = hflags(&input, 5).unwrap();
    println!("{:?}", res);
    assert_eq!(res, vec![flag("CPL", 0), flag("II", 0), flag("A20", 1), flag("SMM", 0), flag("HLT", 0)]);
    assert!(rest.is_empty());
}

#[test]
fn x86_element_parser_get_segment_register() {
    let input = chars("ES =0000 00000000 0000ffff 00009300\n");
    let result = segment_line_parser(&input);
    assert_eq!(result, Ok(((0, 0, 0xffff, 0x9300), empty())));
}

#[test]
fn x86_element_parser_qword() {
    let input = chars("EIP=00007c00");
    let result = qword_parser(&input);
    assert_eq!(result, Ok((0x7c00, empty())));
}

#[test]
fn x86_element_parser_hflags() {
    let input = chars("CPL=0 II=0 A20=1 SMM=0 HLT=0");
    let res = hflags(&input, 5).unwrap().0;
    println!("{:?}", res);
    assert_eq!(res.len(), 5);
    assert_eq!(res[2], flag("A20", 1));
}

#[test]
fn qword_keeps_what_follows() {
    let input = chars("EAX=0000aa55 EBX=00000000");
    let (v, rest) = qword_parser(&input).unwrap();
    assert_eq!(v, 0xaa55);
    assert_eq!(rest, &chars(" EBX=00000000")[..]);
}

#[test]
fn qword_reads_upper_and_lower_case_digits() {
    let input = chars("X=DeadBeef");
    assert_eq!(qword_parser(&input), Ok((0xdead_beef, empty())));
}

#[test]
fn qword_takes_the_largest_value() {
    let input = chars("DR7=ffffffffffffffff");
    assert_eq!(qword_parser(&input), Ok((u64::MAX, empty())));
}

#[test]
fn qword_overflow_fails() {
    let input = chars("DR7=10000000000000000");
    assert_eq!(
        qword_parser(&input),
        Err(ParseError { remaining: 17, expected: Expected::HexInRange })
    );
}

#[test]
fn qword_without_digits_fails() {
    let input = chars("EIP=zz");
    assert_eq!(
        qword_parser(&input),
        Err(ParseError { remaining: 2, expected: Expected::HexDigit })
    );
}

#[test]
fn qword_without_equals_fails() {
    let input = chars("EIP 1234\n");
    assert_eq!(
        qword_parser(&input),
        Err(ParseError { remaining: 0, expected: Expected::Char('=') })
    );
}

#[test]
fn qword_label_spans_lines() {
    let input = chars("A\n=5");
    assert_eq!(qword_parser(&input), Ok((5, empty())));
    let bare = chars("\n=0");
    assert_eq!(qword_parser(&bare), Ok((0, empty())));
}

#[test]
fn hflag_after_line_break() {
    let input = chars("\nA=1");
    assert_eq!(hflag_parser(&input), Ok((flag("A", 1), empty())));
}

#[test]
fn eflags_after_line_break() {
    let input = chars("\n[-]");
    assert_eq!(eflags_parser(&input), Ok((vec!['-'], empty())));
}

#[test]
fn qword_line_needs_terminator() {
    let ok = chars("EFER=0000000000000500\n");
    assert_eq!(qword_line_parser(&ok), Ok((0x500, empty())));
    let missing = chars("EFER=0000000000000500");
    assert_eq!(
        qword_line_parser(&missing),
        Err(ParseError { remaining: 0, expected: Expected::Char('\n') })
    );
}

#[test]
fn hflag_single() {
    let input = chars("  A20=1 SMM=0");
    let (h, rest) = hflag_parser(&input).unwrap();
    assert_eq!(h, flag("A20", 1));
    assert_eq!(rest, &chars(" SMM=0")[..]);
}

#[test]
fn hflag_without_name_fails() {
    let input = chars(" =1");
    assert_eq!(
        hflag_parser(&input),
        Err(ParseError { remaining: 2, expected: Expected::LabelChar })
    );
}

#[test]
fn eflags_all_symbols() {
    let input = chars(" [DOSZAPC-] CPL=0");
    let (flags, rest) = eflags_parser(&input).unwrap();
    assert_eq!(flags, vec!['D', 'O', 'S', 'Z', 'A', 'P', 'C', '-']);
    assert_eq!(rest, &chars(" CPL=0")[..]);
}

#[test]
fn eflags_foreign_symbol_fails() {
    let input = chars("[-X]");
    assert_eq!(
        eflags_parser(&input),
        Err(ParseError { remaining: 2, expected: Expected::Char(']') })
    );
}

#[test]
fn eflags_empty_set_fails() {
    let input = chars("[]");
    assert_eq!(
        eflags_parser(&input),
        Err(ParseError { remaining: 1, expected: Expected::FlagChar })
    );
}

#[test]
fn eflags_without_bracket_fails() {
    let input = chars("-O----C]");
    assert_eq!(
        eflags_parser(&input),
        Err(ParseError { remaining: 8, expected: Expected::Char('[') })
    );
}

#[test]
fn segment_with_three_fields_fails() {
    let input = chars("ES =0000 00000000 0000ffff\nCS =0000 00000000 0000ffff 00009b00\n");
    assert!(segment_line_parser(&input).is_err());
}

#[test]
fn segment_with_five_fields_fails() {
    let input = chars("ES =0000 00000000 0000ffff 00009300 0\n");
    assert_eq!(
        segment_line_parser(&input),
        Err(ParseError { remaining: 3, expected: Expected::Char('\n') })
    );
}

#[test]
fn segment_without_name_fails() {
    let input = chars("=0000 00000000 0000ffff 00009300\n");
    assert_eq!(
        segment_line_parser(&input),
        Err(ParseError { remaining: 33, expected: Expected::Letter })
    );
}

#[test]
fn segment_fields_separated_by_tabs() {
    let input = chars("LDT=\t0000\t00000000\t0000ffff\t00008200\n");
    assert_eq!(segment_line_parser(&input), Ok(((0, 0, 0xffff, 0x8200), empty())));
}

#[test]
fn descriptor_table_entry() {
    let input = chars("GDT=     000f6c00 00000037");
    assert_eq!(dt_parser(&input), Ok(((0xf6c00, 0x37), empty())));
    let line = chars("IDT=     00000000 000003ff\n");
    assert_eq!(dt_line_parser(&line), Ok(((0, 0x3ff), empty())));
}

#[test]
fn descriptor_table_unknown_name_fails() {
    let input = chars("LDT=     000f6c00 00000037\n");
    assert_eq!(
        dt_line_parser(&input),
        Err(ParseError { remaining: 27, expected: Expected::TableName })
    );
}

#[test]
fn internal_line_is_skipped() {
    let input = chars("CCS=00000000 CCD=0000fea4 CCO=EFLAGS\nEFER=0\n");
    let ((), rest) = qemu_internal_line_parser(&input).unwrap();
    assert_eq!(rest, &chars("EFER=0\n")[..]);
}

#[test]
fn internal_line_without_terminator_fails() {
    let input = chars("CCS=00000000");
    assert_eq!(
        qemu_internal_line_parser(&input),
        Err(ParseError { remaining: 0, expected: Expected::Char('\n') })
    );
}

#[test]
fn error_position_counts_from_the_start() {
    let input = chars("EIP=zz");
    let e = qword_parser(&input).unwrap_err();
    assert_eq!(e.position(input.len()), 4);
}
