use binary2graph::analysis::analyze;
use binary2graph::binary::{index_by_address, load_functions, resolve_plt, resolve_target};
use binary2graph::callgraph::NodeKind;
use binary2graph::calls::{analyze_functions, try_analyze_functions};
use binary2graph::decode::{disassemble, Mnemonic, OpKind};
use binary2graph::detection::detect_instrumentation;
use binary2graph::hardening::check_hardening;
use binary2graph::image::{check_addresses, Location, ObjectImage};
use binary2graph::info::load_info;
use binary2graph::report::{build_call_graph, count_incoming, function_table, summary};

struct Part {
    name: &'static str,
    kind: u32,
    address: u64,
    link: u32,
    entry_size: u64,
    data: Vec<u8>,
}

fn part(name: &'static str, kind: u32, address: u64, data: Vec<u8>) -> Part {
    Part { name, kind, address, link: 0, entry_size: 0, data }
}

/// A 64-bit little-endian ELF file with these sections, behind the empty one, and with these types
/// and flags of its program headers.
fn elf(kind: u16, entry: u64, segments: &[(u32, u32)], parts: &[Part]) -> Vec<u8> {
    let mut names: Vec<u8> = vec![0];
    let mut name_at: Vec<u32> = Vec::new();
    for p in parts {
        name_at.push(names.len() as u32);
        names.extend_from_slice(p.name.as_bytes());
        names.push(0);
    }
    let own_name = names.len() as u32;
    names.extend_from_slice(b".shstrtab\0");

    let mut body: Vec<u8> = Vec::new();
    let start = 64 + 56 * segments.len();
    let mut offsets: Vec<u64> = Vec::new();
    for p in parts {
        offsets.push((start + body.len()) as u64);
        body.extend_from_slice(&p.data);
        while body.len() % 8 != 0 {
            body.push(0);
        }
    }
    let names_at = (start + body.len()) as u64;
    body.extend_from_slice(&names);
    while body.len() % 8 != 0 {
        body.push(0);
    }
    let headers_at = (start + body.len()) as u64;

    let mut out: Vec<u8> = vec![0x7f, b'E', b'L', b'F', 2, 1, 1, 0, 0, 0, 0, 0, 0, 0, 0, 0];
    out.extend_from_slice(&kind.to_le_bytes());
    out.extend_from_slice(&62u16.to_le_bytes());
    out.extend_from_slice(&1u32.to_le_bytes());
    out.extend_from_slice(&entry.to_le_bytes());
    out.extend_from_slice(&(if segments.is_empty() { 0u64 } else { 64u64 }).to_le_bytes());
    out.extend_from_slice(&headers_at.to_le_bytes());
    out.extend_from_slice(&0u32.to_le_bytes());
    out.extend_from_slice(&64u16.to_le_bytes());
    out.extend_from_slice(&56u16.to_le_bytes());
    out.extend_from_slice(&(segments.len() as u16).to_le_bytes());
    out.extend_from_slice(&64u16.to_le_bytes());
    out.extend_from_slice(&((parts.len() + 2) as u16).to_le_bytes());
    out.extend_from_slice(&((parts.len() + 1) as u16).to_le_bytes());
    for &(kind, flags) in segments {
        out.extend_from_slice(&kind.to_le_bytes());
        out.extend_from_slice(&flags.to_le_bytes());
        out.extend_from_slice(&[0u8; 48]);
    }
    out.extend_from_slice(&body);

    out.extend_from_slice(&[0u8; 64]);
    for (i, p) in parts.iter().enumerate() {
        let flags: u64 = if p.address != 0 { 6 } else { 0 };
        section_header(
            &mut out,
            name_at[i],
            p.kind,
            flags,
            p.address,
            offsets[i],
            p.data.len() as u64,
            p.link,
            p.entry_size,
        );
    }
    section_header(&mut out, own_name, 3, 0, 0, names_at, names.len() as u64, 0, 0);
    out
}

#[allow(clippy::too_many_arguments)]
fn section_header(
    out: &mut Vec<u8>,
    name: u32,
    kind: u32,
    flags: u64,
    address: u64,
    offset: u64,
    size: u64,
    link: u32,
    entry_size: u64,
) {
    out.extend_from_slice(&name.to_le_bytes());
    out.extend_from_slice(&kind.to_le_bytes());
    out.extend_from_slice(&flags.to_le_bytes());
    out.extend_from_slice(&address.to_le_bytes());
    out.extend_from_slice(&offset.to_le_bytes());
    out.extend_from_slice(&size.to_le_bytes());
    out.extend_from_slice(&link.to_le_bytes());
    out.extend_from_slice(&0u32.to_le_bytes());
    out.extend_from_slice(&1u64.to_le_bytes());
    out.extend_from_slice(&entry_size.to_le_bytes());
}

fn symbol(out: &mut Vec<u8>, name: u32, info: u8, section: u16, value: u64, size: u64) {
    out.extend_from_slice(&name.to_le_bytes());
    out.push(info);
    out.push(0);
    out.extend_from_slice(&section.to_le_bytes());
    out.extend_from_slice(&value.to_le_bytes());
    out.extend_from_slice(&size.to_le_bytes());
}

fn pairs(list: &[(u64, u64)]) -> Vec<u8> {
    let mut out = Vec::new();
    for (key, value) in list {
        out.extend_from_slice(&key.to_le_bytes());
        out.extend_from_slice(&value.to_le_bytes());
    }
    out
}

fn call(out: &mut Vec<u8>, at: u64, target: u64) {
    out.push(0xe8);
    out.extend_from_slice(&((target.wrapping_sub(at + 5)) as u32).to_le_bytes());
}

/// A program whose `main` calls a helper, an imported function and an unknown address.
fn sample() -> Vec<u8> {
    let mut text: Vec<u8> = Vec::new();
    call(&mut text, 0x1000, 0x1010);
    call(&mut text, 0x1005, 0x2000);
    call(&mut text, 0x100a, 0x9000);
    text.push(0xc3);
    text.push(0xc3);

    let plt: Vec<u8> = vec![0xf3, 0x0f, 0x1e, 0xfa, 0xff, 0x25, 0xf6, 0x0f, 0x00, 0x00];

    let strings = b"\0helper\0main\0__asan_init\0__stack_chk_fail\0".to_vec();
    let mut symbols: Vec<u8> = Vec::new();
    symbol(&mut symbols, 0, 0, 0, 0, 0);
    symbol(&mut symbols, 1, 0x02, 1, 0x1010, 1);
    symbol(&mut symbols, 8, 0x12, 1, 0x1000, 16);
    symbol(&mut symbols, 13, 0x11, 1, 0x1000, 0);
    symbol(&mut symbols, 25, 0x12, 0, 0, 0);

    let dynamic_strings = b"\0puts\0libasan.so.8\0libc.so.6\0__memcpy_chk\0".to_vec();
    let mut dynamic_symbols: Vec<u8> = Vec::new();
    symbol(&mut dynamic_symbols, 0, 0, 0, 0, 0);
    symbol(&mut dynamic_symbols, 1, 0x12, 0, 0, 0);
    symbol(&mut dynamic_symbols, 29, 0x12, 0, 0, 0);

    let mut relocations: Vec<u8> = Vec::new();
    relocations.extend_from_slice(&0x3000u64.to_le_bytes());
    relocations.extend_from_slice(&((1u64 << 32) | 7).to_le_bytes());
    relocations.extend_from_slice(&0u64.to_le_bytes());
    relocations.extend_from_slice(&0x3008u64.to_le_bytes());
    relocations.extend_from_slice(&((2u64 << 32) | 6).to_le_bytes());
    relocations.extend_from_slice(&0u64.to_le_bytes());

    elf(
        3,
        0x1000,
        &[(0x6474_e551, 6), (0x6474_e552, 4)],
        &[
            part(".text", 1, 0x1000, text),
            part(".plt.sec", 1, 0x2000, plt),
            Part { link: 4, entry_size: 24, ..part(".symtab", 2, 0, symbols) },
            part(".strtab", 3, 0, strings),
            Part { link: 6, entry_size: 24, ..part(".dynsym", 11, 0x400, dynamic_symbols) },
            part(".dynstr", 3, 0x500, dynamic_strings),
            Part { link: 5, entry_size: 24, ..part(".rela.plt", 4, 0x600, relocations) },
            Part {
                link: 6,
                entry_size: 16,
                ..part(".dynamic", 6, 0x700, pairs(&[(1, 6), (1, 19), (30, 8), (0, 0), (1, 6)]))
            },
            part(".interp", 1, 0x800, b"/lib64/ld.so\0\0".to_vec()),
            part(".comment", 1, 0, b"GCC 13\0\0clang 17\0GCC 13\0".to_vec()),
            part(".note.gnu.property", 7, 0x900, vec![0; 16]),
        ],
    )
}

#[test]
fn bytes_that_are_no_object_are_refused() {
    assert!(ObjectImage::parse(b"plain text, no object").is_none());
    assert!(ObjectImage::parse(&[]).is_none());
}

#[test]
fn functions_come_by_address_with_their_names() {
    let raw = sample();
    let file = ObjectImage::parse(&raw).unwrap();
    let functions = load_functions(&file);
    let listed: Vec<(&str, u64, u64, bool)> =
        functions.iter().map(|f| (f.name.as_str(), f.address, f.size, f.exported)).collect();
    assert_eq!(listed, vec![("main", 0x1000, 16, true), ("helper", 0x1010, 1, false)]);
    let names = index_by_address(&functions);
    assert_eq!(names.len(), 2);
    assert_eq!(names[&0x1000], "main");
    assert_eq!(names[&0x1010], "helper");
}

#[test]
fn stubs_are_named_after_what_fills_their_slots() {
    let raw = sample();
    let file = ObjectImage::parse(&raw).unwrap();
    let names = resolve_plt(&file);
    assert_eq!(names.len(), 1);
    assert_eq!(names[&0x2000], "puts");
}

#[test]
fn targets_resolve_to_functions_before_stubs() {
    let raw = sample();
    let file = ObjectImage::parse(&raw).unwrap();
    let by_addr = index_by_address(&load_functions(&file));
    let plt = resolve_plt(&file);
    assert_eq!(resolve_target(0x1010, &by_addr, &plt), ("helper".to_string(), NodeKind::Local));
    assert_eq!(resolve_target(0x2000, &by_addr, &plt), ("puts".to_string(), NodeKind::Plt));
    assert_eq!(resolve_target(0x9000, &by_addr, &plt), ("sub_9000".to_string(), NodeKind::Unknown));
    assert_eq!(resolve_target(0x2000, &plt, &plt), ("puts".to_string(), NodeKind::Local));
    assert_eq!(resolve_target(0, &by_addr, &plt).0, "sub_0");
    assert_eq!(resolve_target(u64::MAX, &by_addr, &plt).0, "sub_ffffffffffffffff");
}

#[test]
fn calls_are_counted_and_listed() {
    let raw = sample();
    let file = ObjectImage::parse(&raw).unwrap();
    let mut functions = load_functions(&file);
    let calls = analyze_functions(&file, &mut functions);
    assert_eq!(calls, vec![(0x1000, 0x1010), (0x1000, 0x2000), (0x1000, 0x9000)]);
    assert_eq!((functions[0].instructions, functions[0].calls_out), (4, 3));
    assert_eq!((functions[1].instructions, functions[1].calls_out), (1, 0));
}

#[test]
fn functions_outside_the_code_are_left_alone() {
    let raw = sample();
    let file = ObjectImage::parse(&raw).unwrap();
    let mut functions = load_functions(&file);
    functions[0].size = 0;
    functions[1].size = 2;
    let calls = try_analyze_functions(&file, &mut functions).unwrap();
    assert!(calls.is_empty());
    assert_eq!(functions[0].instructions, 0);
    assert_eq!(functions[1].instructions, 0);
}

#[test]
fn an_end_that_overflows_is_reported() {
    let raw = sample();
    let file = ObjectImage::parse(&raw).unwrap();
    let mut functions = load_functions(&file);
    functions[1].size = u64::MAX;
    assert!(try_analyze_functions(&file, &mut functions).is_none());
    assert_eq!(functions[0].instructions, 0);
    functions[1].size = 1;
    functions[0].instructions = u32::MAX - 3;
    assert!(try_analyze_functions(&file, &mut functions).is_none());
    functions[0].instructions = u32::MAX - 4;
    assert_eq!(try_analyze_functions(&file, &mut functions).unwrap().len(), 3);
    assert_eq!(functions[0].instructions, u32::MAX);
}

#[test]
fn a_file_without_code_has_no_calls() {
    let raw = elf(2, 0, &[], &[part(".data", 1, 0x4000, vec![1, 2, 3])]);
    let file = ObjectImage::parse(&raw).unwrap();
    let mut functions = load_functions(&file);
    assert!(functions.is_empty());
    assert!(try_analyze_functions(&file, &mut functions).unwrap().is_empty());
    assert!(resolve_plt(&file).is_empty());
}

#[test]
fn the_passport_holds_what_the_file_says() {
    let raw = sample();
    let file = ObjectImage::parse(&raw).unwrap();
    let info = load_info(&file, &raw);
    assert_eq!(info.format, "Elf");
    assert_eq!(info.architecture, "X86_64");
    assert_eq!(info.bits, 64);
    assert_eq!(info.endianness, "Little");
    assert_eq!(info.kind, "Dynamic");
    assert_eq!(info.entry_point, 0x1000);
    assert_eq!(info.interpreter.as_deref(), Some("/lib64/ld.so"));
    assert_eq!(info.compiler, vec!["GCC 13", "clang 17"]);
    assert_eq!(info.needed_libs, vec!["libasan.so.8", "libc.so.6"]);
    assert!(!info.stripped);
    assert_eq!(info.sections.len(), 12);
    assert_eq!(info.sections[0].name, ".text");
    assert_eq!((info.sections[0].address, info.sections[0].size), (0x1000, 17));
}

#[test]
fn instrumentation_shows_in_symbols_and_libraries() {
    let raw = sample();
    let file = ObjectImage::parse(&raw).unwrap();
    let found = detect_instrumentation(&file, &["libasan.so.8".to_string()]);
    assert_eq!(found.len(), 1);
    assert_eq!(found[0].name, "AddressSanitizer");
    assert_eq!(found[0].symbols, vec!["__asan_init"]);
    assert_eq!(found[0].linked_lib.as_deref(), Some("libasan.so.8"));

    let linked = detect_instrumentation(&file, &["x".to_string(), "/usr/lib/libtsan.so".to_string()]);
    assert_eq!(linked.len(), 2);
    assert_eq!(linked[0].linked_lib, None);
    assert_eq!(linked[1].name, "ThreadSanitizer");
    assert!(linked[1].symbols.is_empty());
}

#[test]
fn a_detection_shows_five_symbols_at_most() {
    let raw = sample();
    let mut file = ObjectImage::parse(&raw).unwrap();
    let names = ["__gcov_7", "__gcov_3", "__gcov_3", "__gcov_9"];
    for (symbol, name) in file.symbols.iter_mut().zip(names) {
        symbol.name = Some(name.to_string());
    }
    let others = ["__llvm_profile_dump", "__gcov_1", "x__gcov_0"];
    for (symbol, name) in file.dynamic_symbols.iter_mut().zip(others) {
        symbol.name = Some(name.to_string());
    }
    let found = detect_instrumentation(&file, &[]);
    assert_eq!(found.len(), 1);
    assert_eq!(found[0].name, "gcov/profiling");
    assert_eq!(
        found[0].symbols,
        vec!["__gcov_1", "__gcov_3", "__gcov_7", "__gcov_9", "__llvm_profile_dump"]
    );
    file.symbols[0].name = Some("__gcov_0".to_string());
    file.symbols[1].name = Some("__gcov_2".to_string());
    let found = detect_instrumentation(&file, &[]);
    assert_eq!(
        found[0].symbols,
        vec!["__gcov_0", "__gcov_1", "__gcov_2", "__gcov_3", "__gcov_9"]
    );
}

#[test]
fn hardening_is_read_off_headers_and_symbols() {
    let raw = sample();
    let file = ObjectImage::parse(&raw).unwrap();
    let h = check_hardening(&file, &raw).unwrap();
    assert!(h.nx);
    assert_eq!(h.relro, "full");
    assert!(h.canary);
    assert!(h.cet);
    assert!(h.fortify);
    assert!(h.pie);
}

#[test]
fn an_unhardened_file_has_nothing() {
    let raw = elf(2, 0, &[(0x6474_e551, 7)], &[part(".text", 1, 0x1000, vec![0xc3])]);
    let file = ObjectImage::parse(&raw).unwrap();
    let h = check_hardening(&file, &raw).unwrap();
    assert!(!h.nx);
    assert_eq!(h.relro, "none");
    assert!(!h.canary && !h.cet && !h.fortify && !h.pie);

    let partial = elf(2, 0, &[(0x6474_e552, 4)], &[part(".text", 1, 0x1000, vec![0xc3])]);
    let file = ObjectImage::parse(&partial).unwrap();
    let h = check_hardening(&file, &partial).unwrap();
    assert!(h.nx);
    assert_eq!(h.relro, "partial");
}

#[test]
fn bytes_that_are_no_elf_have_no_hardening() {
    let raw = sample();
    let file = ObjectImage::parse(&raw).unwrap();
    assert!(check_hardening(&file, b"not an elf file").is_none());
    let info = load_info(&file, b"not an elf file");
    assert!(info.hardening.is_none());
    assert!(!info.to_text().contains("Hardening:"));
}

#[test]
fn the_passport_prints_line_by_line() {
    let raw = sample();
    let file = ObjectImage::parse(&raw).unwrap();
    let text = load_info(&file, &raw).to_text();
    let head = "Format:      Elf (64-bit, Little endian)\n\
                Arch:        X86_64\n\
                Kind:        Dynamic\n\
                Entry point: 0x1000\n\
                Interpreter: /lib64/ld.so\n\
                Compiler:    GCC 13; clang 17\n\
                Symbols:     present (.symtab)\n\
                Needed libs:\n  libasan.so.8\n  libc.so.6\n\
                Instrumentation:\n  AddressSanitizer  [linked: libasan.so.8]\n    evidence: __asan_init\n\
                Hardening:\n  NX:      enabled\n  RELRO:   full\n  Canary:  found\n  CET:     property note present\n  Fortify: found\n  PIE:     yes\n\
                Sections (12):\n";
    assert!(text.starts_with(head), "{}", text);
    assert!(text.contains("\n  .text                0x00001000        17\n"), "{}", text);
}

#[test]
fn the_report_follows_the_calls() {
    let raw = sample();
    let file = ObjectImage::parse(&raw).unwrap();
    let mut functions = load_functions(&file);
    let by_addr = index_by_address(&functions);
    let plt = resolve_plt(&file);
    let calls = try_analyze_functions(&file, &mut functions).unwrap();
    let counts = count_incoming(&calls).unwrap();
    assert_eq!(counts.len(), 3);
    assert_eq!(counts[&0x1010], 1);
    let graph = build_call_graph(&calls, &by_addr, &plt).unwrap();
    assert_eq!((graph.node_count(), graph.edge_count()), (4, 3));
    let export = graph.export();
    let nodes: Vec<(&str, NodeKind)> =
        export.nodes.iter().map(|n| (n.name.as_str(), n.kind)).collect();
    assert_eq!(
        nodes,
        vec![
            ("main", NodeKind::Local),
            ("helper", NodeKind::Local),
            ("puts", NodeKind::Plt),
            ("sub_9000", NodeKind::Unknown),
        ]
    );
    assert_eq!(export.edges, vec![(0, 1), (0, 2), (0, 3)]);
    assert_eq!(
        function_table(&functions, &counts),
        "Functions:\n  NAME                           ADDR   SIZE  INSTRS    IN   OUT\n  \
         helper                   0x00001010      1       1     1     0\n  \
         main                     0x00001000     16       4     0     3\n"
    );
    assert_eq!(
        summary("a.out", functions.len(), plt.len(), calls.len(), 4, 3),
        "Binary: a.out\n  functions:    2\n  plt entries:  1\n  direct calls: 3\n\
         Graph: 4 nodes, 3 edges\n"
    );
}

#[test]
fn a_listing_covers_the_code() {
    let code = [0xf3, 0x0f, 0x1e, 0xfa, 0xff, 0x25, 0xf6, 0x0f, 0x00, 0x00, 0xe8, 0, 0, 0, 0, 0xc3];
    let lines = disassemble(&code, 0x2000);
    let seen: Vec<(u64, usize, Mnemonic)> =
        lines.iter().map(|l| (l.ip, l.insn.len, l.insn.mnemonic)).collect();
    assert_eq!(
        seen,
        vec![
            (0x2000, 4, Mnemonic::Endbr64),
            (0x2004, 6, Mnemonic::Jmp),
            (0x200a, 5, Mnemonic::Call),
            (0x200f, 1, Mnemonic::Other),
        ]
    );
    assert_eq!(lines[1].insn.op0, OpKind::Memory);
    assert_eq!(lines[1].insn.displacement, 0x3000);
    assert_eq!(lines[2].insn.op0, OpKind::NearBranch64);
    assert_eq!(lines[2].insn.target, 0x200f);
    assert_eq!(lines.iter().map(|l| l.insn.len).sum::<usize>(), code.len());
}

#[test]
fn broken_code_is_listed_to_its_end() {
    let code = [0x06, 0xe8, 0x00];
    let lines = disassemble(&code, 0);
    assert_eq!(lines.iter().map(|l| l.insn.len).sum::<usize>(), 3);
    assert!(disassemble(&[], 7).is_empty());
    let last = disassemble(&[0x90, 0x90], u64::MAX);
    assert_eq!(last[1].ip, 0);
}

#[test]
fn an_analysis_holds_all_of_it() {
    let raw = sample();
    let file = ObjectImage::parse(&raw).unwrap();
    let a = analyze(&file, &raw).unwrap();
    assert_eq!(a.functions.len(), 2);
    assert_eq!(a.plt_names.len(), 1);
    assert_eq!(a.calls.len(), a.graph.edge_count());
    assert_eq!(a.functions.iter().map(|f| f.calls_out as usize).sum::<usize>(), a.calls.len());
    let short = a.to_text("a.out", true);
    assert!(short.starts_with("Functions:\n"));
    assert!(short.ends_with("Graph: 4 nodes, 3 edges\n"));
    let long = a.to_text("a.out", false);
    assert!(long.starts_with("=== a.out ===\nFormat:      Elf (64-bit, Little endian)\n"));
    assert!(long.ends_with(&short));
}

#[test]
fn an_analysis_that_overflows_is_refused() {
    let raw = sample();
    let mut file = ObjectImage::parse(&raw).unwrap();
    file.symbols[0].size = u64::MAX;
    file.symbols[1].size = u64::MAX;
    assert!(analyze(&file, &raw).is_none());
}

/// A 64-bit PE file with this image base, one section at 0x1000, and one symbol of this storage
/// class in the section of this number.
fn pe(base: u64, class: u8, section_number: u16) -> Vec<u8> {
    let mut out: Vec<u8> = vec![0; 64];
    out[0] = b'M';
    out[1] = b'Z';
    out[60] = 64;
    out.extend_from_slice(b"PE\0\0");
    out.extend_from_slice(&0x8664u16.to_le_bytes());
    out.extend_from_slice(&1u16.to_le_bytes());
    out.extend_from_slice(&0u32.to_le_bytes());
    out.extend_from_slice(&0x200u32.to_le_bytes());
    out.extend_from_slice(&1u32.to_le_bytes());
    out.extend_from_slice(&240u16.to_le_bytes());
    out.extend_from_slice(&0x22u16.to_le_bytes());

    let mut optional: Vec<u8> = vec![0; 240];
    optional[..2].copy_from_slice(&0x20bu16.to_le_bytes());
    optional[16..20].copy_from_slice(&0x1000u32.to_le_bytes());
    optional[24..32].copy_from_slice(&base.to_le_bytes());
    optional[108..112].copy_from_slice(&16u32.to_le_bytes());
    out.extend_from_slice(&optional);

    let mut section: Vec<u8> = vec![0; 40];
    section[..5].copy_from_slice(b".text");
    section[8..12].copy_from_slice(&0x10u32.to_le_bytes());
    section[12..16].copy_from_slice(&0x1000u32.to_le_bytes());
    section[36..40].copy_from_slice(&0x6000_0020u32.to_le_bytes());
    out.extend_from_slice(&section);

    out.resize(0x200, 0);
    out.extend_from_slice(b"main\0\0\0\0");
    out.extend_from_slice(&4u32.to_le_bytes());
    out.extend_from_slice(&section_number.to_le_bytes());
    out.extend_from_slice(&0x20u16.to_le_bytes());
    out.push(class);
    out.push(0);
    out.extend_from_slice(&4u32.to_le_bytes());
    out
}

#[test]
fn a_pe_file_has_its_functions_behind_its_base() {
    let file = ObjectImage::parse(&pe(0x1_4000_0000, 2, 1)).unwrap();
    assert_eq!(file.header.format, "Pe");
    let functions = load_functions(&file);
    assert_eq!(functions.len(), 1);
    assert_eq!((functions[0].name.as_str(), functions[0].address), ("main", 0x1_4000_1004));
}

#[test]
fn a_symbol_whose_address_overflows_is_refused() {
    let highest = u64::MAX - 0x1004;
    for class in [2, 3, 6, 105] {
        assert!(ObjectImage::parse(&pe(highest, class, 1)).is_some());
        assert!(ObjectImage::parse(&pe(highest + 1, class, 1)).is_none());
    }
    let file = ObjectImage::parse(&pe(highest, 2, 1)).unwrap();
    assert_eq!(load_functions(&file)[0].address, u64::MAX);
}

#[test]
fn a_high_base_without_an_overflow_is_read() {
    for (class, section) in [(103, 1), (2, 0), (2, 7), (2, 0xffff)] {
        let file = ObjectImage::parse(&pe(u64::MAX, class, section)).unwrap();
        assert_eq!(file.symbols.len(), 1);
        assert_eq!(file.symbols[0].address, 0);
    }
}

#[test]
fn addresses_are_tested_by_class_and_section() {
    let at = |class: u8, section: Option<u32>, value: u32| Location { class, section, value };
    assert!(check_addresses(u64::MAX, &vec![]));
    assert!(check_addresses(u64::MAX, &vec![at(2, Some(0), 0), at(2, None, 9), at(4, Some(9), 9)]));
    assert!(!check_addresses(u64::MAX, &vec![at(2, Some(0), 0), at(3, Some(0), 1)]));
    assert!(!check_addresses(u64::MAX, &vec![at(6, Some(u32::MAX), u32::MAX)]));
}
