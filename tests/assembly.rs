use relay::assembly::{AssemblyAnalyzer, AssemblyLine};

fn line(address: u64, file: &str, source_line: u32) -> AssemblyLine {
    AssemblyLine {
        address,
        instruction: format!("nop {}", address),
        source_file: file.to_string(),
        source_line,
    }
}

#[test]
fn lookup_filters_by_line_and_path_suffix() {
    let mut a = AssemblyAnalyzer::new();
    assert!(a.get_assembly_for_line("main.cpp", 1).is_empty());
    a.asm_lines.push(line(0x10, "/src/app/main.cpp", 4));
    a.asm_lines.push(line(0x14, "/src/app/main.cpp", 5));
    a.asm_lines.push(line(0x18, "/src/app/other.cpp", 4));
    a.asm_lines.push(line(0x1c, "/src/app/main.cpp", 4));
    let found = a.get_assembly_for_line("main.cpp", 4);
    let addrs: Vec<u64> = found.iter().map(|l| l.address).collect();
    assert_eq!(addrs, vec![0x10, 0x1c]);
    assert!(a.get_assembly_for_line("/elsewhere/main.cpp", 4).is_empty());
    assert_eq!(a.get_assembly_for_line("", 5).len(), 1);
}

#[test]
fn listing_is_read_line_by_line() {
    let mut a = AssemblyAnalyzer::new();
    a.asm_lines.push(line(0x99, "stale.cpp", 1));
    let listing = "\n0000000000001130 <main>:\n; /src/app/main.cpp:4\n    1130: push    rbp\r\n    0x1131:  mov     rbp, rsp  \n; C:\\src\\win.cpp:12\n0x0x1f: ret\n; bad location:x\n1f4: nop\nnot an address: x\n";
    assert!(a.parse_objdump_output(listing));
    let got: Vec<(u64, String, String, u32)> = a
        .asm_lines
        .iter()
        .map(|l| (l.address, l.instruction.clone(), l.source_file.clone(), l.source_line))
        .collect();
    assert_eq!(
        got,
        vec![
            (0x1130, "push    rbp".to_string(), "/src/app/main.cpp".to_string(), 4),
            (0x1131, "mov     rbp, rsp".to_string(), "/src/app/main.cpp".to_string(), 4),
            (0x1f, "ret".to_string(), "C:\\src\\win.cpp".to_string(), 12),
            (0x1f4, "nop".to_string(), "C:\\src\\win.cpp".to_string(), 12),
        ]
    );
    let found = a.get_assembly_for_line("main.cpp", 4);
    assert_eq!(found.len(), 2);
}

#[test]
fn listing_without_instructions_reads_nothing() {
    let mut a = AssemblyAnalyzer::new();
    assert!(!a.parse_objdump_output("; only.cpp:3\n\n"));
    assert!(a.asm_lines.is_empty());
    assert!(!a.parse_objdump_output("ffffffffffffffffff: too wide"));
    assert!(a.parse_objdump_output("ffffffffffffffff: widest"));
    assert_eq!(a.asm_lines[0].address, u64::MAX);
    assert_eq!(a.asm_lines[0].source_line, 0);
    assert_eq!(a.asm_lines[0].source_file, "");
}
