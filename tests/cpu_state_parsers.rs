use qemu_from::x86_cpu_state_parser::{
    control_regs_parser, debug_regs_parser, descriptor_tables_parser, general_regs_parser,
    segment_regs_parser, status_regs_parser, x86_cpu_state_parser,
};
use qemu_from::x86_element_parser::{eflags_parser, hflags, qemu_internal_line_parser, qword_parser};
use qemu_from::{
    ControlRegs, DebugRegs, DescriptorTable, Expected, GeneralRegisters, HFlag, ParseError,
    SegmentRegisters, StatusRegisters,
};

fn text_chars(s: &str) -> Vec<char> {
    s.chars().collect()
}

fn no_chars() -> &'static [char] {
    &[]
}

const RECORD: &str = "EAX=0000aa55 EBX=00000000 ECX=00000000 EDX=00000080
ESI=00000000 EDI=00000000 EBP=00000000 ESP=00006f2c
EIP=00007c00 EFL=00000202 [-------] CPL=0 II=0 A20=1 SMM=0 HLT=0
ES =0000 00000000 0000ffff 00009300
CS =0000 00000000 0000ffff 00009b00
SS =0000 00000000 0000ffff 00009300
DS =0000 00000000 0000ffff 00009300
FS =0000 00000000 0000ffff 00009300
GS =0000 00000000 0000ffff 00009300
LDT=0000 00000000 0000ffff 00008200
TR =0000 00000000 0000ffff 00008b00
GDT=     000f6c00 00000037
IDT=     00000000 000003ff
CR0=00000010 CR2=00000000 CR3=00000000 CR4=00000000
DR0=0000000000000000 DR1=0000000000000000 DR2=0000000000000000 DR3=0000000000000000
DR6=00000000ffff0ff0 DR7=0000000000000400
CCS=00000000 CCD=0000fea4 CCO=EFLAGS
EFER=0000000000000000
";

#[test]
fn general_regs() {
    let input = text_chars("EAX=0000aa55 EBX=00000000 ECX=00000000 EDX=00000080\nESI=00000000 EDI=00000000 EBP=00000000 ESP=00006f2c\n");
    let res = general_regs_parser(&input).unwrap();
    let expect = GeneralRegisters {
        EAX: 0xaa55,
        EBX: 0,
        ECX: 0,
        EDX: 0x80,
        ESI: 0,
        EDI: 0,
        EBP: 0,
        ESP: 0x6f2c,
    };
    assert_eq!(res, (expect, no_chars()));
}

#[test]
fn status_registers() {
    let input = text_chars("EIP=00007c00 EFL=00000202 [-------] CPL=0 II=0 A20=1 SMM=0 HLT=0\n");
    let res = status_regs_parser(&input);
    let eip = text_chars("EIP=00007c00");
    let efl = text_chars("EFL=00000202");
    let flags = text_chars("[-------]");
    let hf = text_chars("CPL=0 II=0 A20=1 SMM=0 HLT=0");
    assert_eq!(
        res.unwrap(),
        (
            StatusRegisters {
                EIP: qword_parser(&eip).unwrap().0,
                EFLAGS_RAW: qword_parser(&efl).unwrap().0,
                EFLAGS: eflags_parser(&flags).unwrap().0,
                HFLAGS: hflags(&hf, 5).unwrap().0,
            },
            no_chars()
        )
    );
}

#[test]
fn eflags() {
    let input = text_chars("[-O----C]");
    let res = eflags_parser(&input);
    assert_eq!(res.unwrap(), (vec!['-', 'O', '-', '-', '-', '-', 'C'], no_chars()));
}

#[test]
fn descriptor_tables() {
    let input = text_chars("GDT=     000f6c00 00000037\nIDT=     00000000 000003ff\n");
    let res = descriptor_tables_parser(&input).unwrap();
    let expect = DescriptorTable { GDT: (0xf6c00, 0x37), IDT: (0x0, 0x3ff) };
    assert_eq!(res, (expect, no_chars()));
}

#[test]
fn control_regs() {
    let input = text_chars("CR0=00000010 CR2=00000000 CR3=00000000 CR4=00000000\n");
    let res = control_regs_parser(&input).unwrap();
    let expect = ControlRegs { CR0: 0x10, CR1: 0, CR2: 0, CR3: 0 };
    assert_eq!(res, (expect, no_chars()));
}

#[test]
fn debug_regs() {
    let input = text_chars("DR0=0000000000000000 DR1=0000000000000000 DR2=0000000000000000 DR3=0000000000000000\nDR6=00000000ffff0ff0 DR7=0000000000000400\n");
    let res = debug_regs_parser(&input).unwrap();
    let expect = DebugRegs { DR0: 0, DR1: 0, DR2: 0, DR3: 0, DR6: 0xffff0ff0, DR7: 0x400 };
    assert_eq!(res, (expect, no_chars()));
}

#[test]
fn qemu_internal() {
    let input = text_chars("CCS=00000000 CCD=0000fea4 CCO=EFLAGS\n");
    let res = qemu_internal_line_parser(&input).unwrap();
    assert_eq!(res, ((), no_chars()));
}

#[test]
fn segment_regs() {
    let input = text_chars("ES =0000 00000000 0000ffff 00009300\nCS =0000 00000000 0000ffff 00009b00\nSS =0000 00000000 0000ffff 00009300\nDS =0000 00000000 0000ffff 00009300\nFS =0000 00000000 0000ffff 00009300\nGS =0000 00000000 0000ffff 00009300\nLDT=0000 00000000 0000ffff 00008200\nTR =0000 00000000 0000ffff 00008b00\n");
    let res = segment_regs_parser(&input);
    let expect = SegmentRegisters {
        ES: (0, 0, 0xffff, 0x9300),
        CS: (0, 0, 0xffff, 0x9b00),
        SS: (0, 0, 0xffff, 0x9300),
        DS: (0, 0, 0xffff, 0x9300),
        FS: (0, 0, 0xffff, 0x9300),
        GS: (0, 0, 0xffff, 0x9300),
        LDT: (0, 0, 0xffff, 0x8200),
        TR: (0, 0, 0xffff, 0x8b00),
    };
    assert_eq!(res, Ok((expect, no_chars())));
}

#[test]
fn whole_record_decodes() {
    let input = text_chars(RECORD);
    let (cpu, rest) = x86_cpu_state_parser(&input).unwrap();
    assert!(rest.is_empty());
    assert_eq!(cpu.general_regs.EAX, 0xaa55);
    assert_eq!(cpu.general_regs.EDX, 0x80);
    assert_eq!(cpu.general_regs.ESP, 0x6f2c);
    assert_eq!(cpu.status_regs.EIP, 0x7c00);
    assert_eq!(cpu.status_regs.EFLAGS_RAW, 0x202);
    assert_eq!(cpu.status_regs.EFLAGS, vec!['-'; 7]);
    assert_eq!(cpu.status_regs.HFLAGS[2], HFlag("A20".to_string(), 1));
    assert_eq!(cpu.segment_regs.ES, (0, 0, 0xffff, 0x9300));
    assert_eq!(cpu.segment_regs.CS, (0, 0, 0xffff, 0x9b00));
    assert_eq!(cpu.segment_regs.TR, (0, 0, 0xffff, 0x8b00));
    assert_eq!(cpu.desc_tables.GDT, (0xf6c00, 0x37));
    assert_eq!(cpu.desc_tables.IDT, (0, 0x3ff));
    assert_eq!(cpu.control_regs.CR0, 0x10);
    assert_eq!(cpu.debug_regs.DR6, 0xffff0ff0);
    assert_eq!(cpu.debug_regs.DR7, 0x400);
    assert_eq!(cpu.efer, 0);
}

#[test]
fn two_records_decode_twice() {
    let log = text_chars(&format!("{}{}", RECORD, RECORD));
    let mut buffer: &[char] = &log;
    let mut count = 0;
    while let Ok((cpu, remaining)) = x86_cpu_state_parser(buffer) {
        assert_eq!(cpu.general_regs.EAX, 0xaa55);
        buffer = remaining;
        count += 1;
    }
    assert_eq!(count, 2);
    assert!(buffer.is_empty());
}

#[test]
fn remainder_is_exactly_the_second_record() {
    let second = RECORD.replace("EAX=0000aa55", "EAX=00001234");
    let log = text_chars(&format!("{}{}", RECORD, second));
    let (first, rest) = x86_cpu_state_parser(&log).unwrap();
    assert_eq!(first.general_regs.EAX, 0xaa55);
    assert_eq!(rest, &text_chars(&second)[..]);
    let (next, rest2) = x86_cpu_state_parser(rest).unwrap();
    assert_eq!(next.general_regs.EAX, 0x1234);
    assert!(rest2.is_empty());
}

#[test]
fn record_after_garbage_stops_the_log() {
    let log = text_chars(&format!("{}garbage\n", RECORD));
    let (_, rest) = x86_cpu_state_parser(&log).unwrap();
    assert_eq!(rest, &text_chars("garbage\n")[..]);
    assert!(x86_cpu_state_parser(rest).is_err());
}

#[test]
fn empty_log_has_no_record() {
    assert_eq!(
        x86_cpu_state_parser(&[]),
        Err(ParseError { remaining: 0, expected: Expected::Char('=') })
    );
}

#[test]
fn status_with_four_flags_fails() {
    let input = text_chars("EIP=00007c00 EFL=00000202 [-------] CPL=0 II=0 A20=1 SMM=0\nES =0000 00000000 0000ffff 00009300\n");
    assert_eq!(
        status_regs_parser(&input),
        Err(ParseError { remaining: 34, expected: Expected::Char('=') })
    );
}

#[test]
fn status_with_six_flags_fails() {
    let input = text_chars("EIP=00007c00 EFL=00000202 [-------] CPL=0 II=0 A20=1 SMM=0 HLT=0 X=1\n");
    assert_eq!(
        status_regs_parser(&input),
        Err(ParseError { remaining: 5, expected: Expected::Char('\n') })
    );
}

#[test]
fn record_with_three_control_fields_fails() {
    let text = RECORD.replace(" CR4=00000000", "");
    let input = text_chars(&text);
    assert!(x86_cpu_state_parser(&input).is_err());
}

#[test]
fn record_with_four_flags_fails() {
    let text = RECORD.replace(" HLT=0", "");
    let input = text_chars(&text);
    assert!(x86_cpu_state_parser(&input).is_err());
}

#[test]
fn record_with_six_flags_fails() {
    let text = RECORD.replace("HLT=0", "HLT=0 X=1");
    let input = text_chars(&text);
    assert!(x86_cpu_state_parser(&input).is_err());
}

#[test]
fn record_with_three_segment_fields_fails() {
    let text = RECORD.replace("TR =0000 00000000 0000ffff 00008b00", "TR =0000 00000000 0000ffff");
    let input = text_chars(&text);
    assert!(x86_cpu_state_parser(&input).is_err());
}

#[test]
fn record_with_five_segment_fields_fails() {
    let text = RECORD.replace("CS =0000 00000000 0000ffff 00009b00", "CS =0000 00000000 0000ffff 00009b00 0");
    let input = text_chars(&text);
    assert!(x86_cpu_state_parser(&input).is_err());
}

#[test]
fn record_missing_final_terminator_fails() {
    let text = RECORD.trim_end_matches('\n');
    let input = text_chars(text);
    assert_eq!(
        x86_cpu_state_parser(&input),
        Err(ParseError { remaining: 0, expected: Expected::Char('\n') })
    );
}

#[test]
fn record_failure_position() {
    let text = RECORD.replace("CR3=00000000", "CR3=zzzzzzzz");
    let input = text_chars(&text);
    let e = x86_cpu_state_parser(&input).unwrap_err();
    assert_eq!(e.expected, Expected::HexDigit);
    let pos = e.position(input.len());
    assert_eq!(input[pos], 'z');
    assert_eq!(&input[pos - 4..pos], &text_chars("CR3=")[..]);
}
