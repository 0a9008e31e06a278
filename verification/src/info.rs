//! The passport of a binary: what is known of it besides its functions, and how that is printed.
use vstd::prelude::*;
use vstd::string::StringExecFns;

use crate::detection;
use crate::detection::Detection;
use crate::dynamic;
use crate::hardening;
use crate::hardening::Hardening;
use crate::image;
use crate::image::ObjectImage;
use crate::text;

verus! {

#[derive(Debug)]
pub struct SectionInfo {
    pub name: String,
    pub address: u64,
    pub size: u64,
}

/// The values of a [`SectionInfo`].
pub struct SectionInfoModel {
    pub name: Seq<char>,
    pub address: u64,
    pub size: u64,
}

impl View for SectionInfo {
    type V = SectionInfoModel;

    open spec fn view(&self) -> SectionInfoModel {
        SectionInfoModel { name: self.name@, address: self.address, size: self.size }
    }
}

/// The values of the sections in a list.
pub open spec fn section_models(list: Seq<SectionInfo>) -> Seq<SectionInfoModel> {
    list.map_values(|s: SectionInfo| s@)
}

#[derive(Debug)]
pub struct BinaryInfo {
    pub format: String,
    pub architecture: String,
    pub bits: u8,
    pub endianness: String,
    pub kind: String,
    pub entry_point: u64,
    pub interpreter: Option<String>,
    pub compiler: Vec<String>,
    pub needed_libs: Vec<String>,
    pub stripped: bool,
    pub instrumentation: Vec<Detection>,
    pub sections: Vec<SectionInfo>,
    pub hardening: Option<Hardening>,
}

/// The values of a [`BinaryInfo`].
#[verifier::ext_equal]
pub struct InfoModel {
    pub format: Seq<char>,
    pub architecture: Seq<char>,
    pub bits: u8,
    pub endianness: Seq<char>,
    pub kind: Seq<char>,
    pub entry_point: u64,
    pub interpreter: Option<Seq<char>>,
    pub compiler: Seq<Seq<char>>,
    pub needed_libs: Seq<Seq<char>>,
    pub stripped: bool,
    pub instrumentation: Seq<detection::DetectionModel>,
    pub sections: Seq<SectionInfoModel>,
    pub hardening: Option<hardening::HardeningModel>,
}

impl View for BinaryInfo {
    type V = InfoModel;

    open spec fn view(&self) -> InfoModel {
        InfoModel {
            format: self.format@,
            architecture: self.architecture@,
            bits: self.bits,
            endianness: self.endianness@,
            kind: self.kind@,
            entry_point: self.entry_point,
            interpreter: image::text_option(self.interpreter),
            compiler: text::texts(self.compiler@),
            needed_libs: text::texts(self.needed_libs@),
            stripped: self.stripped,
            instrumentation: detection::detection_models(self.instrumentation@),
            sections: section_models(self.sections@),
            hardening: hardening::hardening_option(self.hardening),
        }
    }
}

/// The path in the interpreter section, without the zeros at its end.
pub open spec fn interpreter_of(file: image::ImageModel) -> Option<Seq<char>> {
    match file.interp {
        Some(section) => match section.data {
            Some(data) => Some(text::without_trailing_nuls(text::lossy_text(data))),
            None => None,
        },
        None => None,
    }
}

/// How a section header is listed.
pub open spec fn listed_section(header: image::SectionHeaderModel) -> SectionInfoModel {
    SectionInfoModel {
        name: match header.name {
            Some(name) => name,
            None => "<unnamed>"@,
        },
        address: header.address,
        size: header.size,
    }
}

/// The passport of a file with this hardening.
pub open spec fn info_with(
    file: image::ImageModel,
    hardening: Option<hardening::HardeningModel>,
) -> InfoModel {
    InfoModel {
        format: file.header.format,
        architecture: file.header.architecture,
        bits: if file.header.is_64 {
            64
        } else {
            32
        },
        endianness: file.header.endianness,
        kind: file.header.kind,
        entry_point: file.header.entry,
        interpreter: interpreter_of(file),
        compiler: dynamic::compiler_remarks(file),
        needed_libs: dynamic::file_libraries(file),
        stripped: file.symbols.len() == 0,
        instrumentation: detection::detections(
            detection::signature_table(),
            detection::file_symbol_names(file),
            dynamic::file_libraries(file),
        ),
        sections: file.sections.map_values(|h: image::SectionHeaderModel| listed_section(h)),
        hardening,
    }
}

fn list_sections(headers: &Vec<image::SectionHeader>) -> (r: Vec<SectionInfo>)
    ensures
        section_models(r@) == image::header_models(headers@).map_values(
            |h: image::SectionHeaderModel| listed_section(h),
        ),
{
    let mut sections: Vec<SectionInfo> = Vec::new();
    let mut i: usize = 0;
    while i < headers.len()
        invariant
            i <= headers.len(),
            sections.len() == i,
            forall|k: int|
                0 <= k < i ==> (#[trigger] sections@[k])@ == listed_section(headers@[k]@),
        decreases headers.len() - i,
    {
        let header = &headers[i];
        let name = match &header.name {
            Some(name) => name.clone(),
            None => "<unnamed>".to_owned(),
        };
        sections.push(SectionInfo { name, address: header.address, size: header.size });
        i = i + 1;
    }
    assert(section_models(sections@) =~= image::header_models(headers@).map_values(
        |h: image::SectionHeaderModel| listed_section(h),
    ));
    sections
}

/// The passport of a file with this hardening.
pub fn describe(file: &ObjectImage, hardening: Option<Hardening>) -> (r: BinaryInfo)
    ensures
        r@ == info_with(file@, hardening::hardening_option(hardening)),
{
    let interpreter = match &file.interp {
        Some(section) => match &section.data {
            Some(data) => Some(text::trim_end_nuls(text::lossy(data.as_slice()).as_str())),
            None => None,
        },
        None => None,
    };
    let sections = list_sections(&file.sections);
    let compiler = dynamic::read_compiler_info(file);
    let needed_libs = dynamic::read_needed_libs(file);
    let instrumentation = detection::detect_instrumentation(file, needed_libs.as_slice());
    let stripped = file.symbols.is_empty();
    BinaryInfo {
        format: file.header.format.clone(),
        architecture: file.header.architecture.clone(),
        bits: if file.header.is_64 {
            64
        } else {
            32
        },
        endianness: file.header.endianness.clone(),
        kind: file.header.kind.clone(),
        entry_point: file.header.entry,
        interpreter,
        compiler,
        needed_libs,
        stripped,
        instrumentation,
        sections,
        hardening,
    }
}

/// The passport of a file; `raw` holds its bytes.
pub fn load_info(file: &ObjectImage, raw: &[u8]) -> (r: BinaryInfo)
    ensures
        r@ == info_with(file@, hardening::file_hardening(file@, raw@)),
{
    let hardening = hardening::check_hardening(file, raw);
    describe(file, hardening)
}

/// One of two texts.
pub open spec fn either(b: bool, yes: Seq<char>, no: Seq<char>) -> Seq<char> {
    if b {
        yes
    } else {
        no
    }
}

/// The lines on the file format and the entry point.
pub open spec fn head_text(info: InfoModel) -> Seq<char> {
    "Format:      "@ + info.format + " ("@ + text::dec(info.bits as nat) + "-bit, "@
        + info.endianness + " endian)\nArch:        "@ + info.architecture + "\nKind:        "@
        + info.kind + "\nEntry point: "@ + text::prefixed_hex(info.entry_point as nat) + "\n"@
}

/// The line on the interpreter, where there is one.
pub open spec fn interpreter_text(info: InfoModel) -> Seq<char> {
    match info.interpreter {
        Some(interp) => "Interpreter: "@ + interp + "\n"@,
        None => Seq::empty(),
    }
}

/// The line on the compilers, where there is a remark.
pub open spec fn compiler_text(info: InfoModel) -> Seq<char> {
    if info.compiler.len() > 0 {
        "Compiler:    "@ + text::joined(info.compiler, "; "@) + "\n"@
    } else {
        Seq::empty()
    }
}

/// Each library on a line of its own.
pub open spec fn library_lines(libs: Seq<Seq<char>>) -> Seq<char>
    decreases libs.len(),
{
    if libs.len() == 0 {
        Seq::empty()
    } else {
        library_lines(libs.drop_last()) + "  "@ + libs.last() + "\n"@
    }
}

/// The lines on the symbols and the libraries.
pub open spec fn symbols_text(info: InfoModel) -> Seq<char> {
    "Symbols:     "@ + either(info.stripped, "stripped"@, "present (.symtab)"@) + "\n"@ + (
    if info.needed_libs.len() > 0 {
        "Needed libs:\n"@ + library_lines(info.needed_libs)
    } else {
        Seq::empty()
    })
}

/// The lines on one detection.
pub open spec fn detection_text(d: detection::DetectionModel) -> Seq<char> {
    "  "@ + d.name + (match d.linked_lib {
        Some(lib) => "  [linked: "@ + lib + "]"@,
        None => Seq::empty(),
    }) + "\n"@ + (if d.symbols.len() > 0 {
        "    evidence: "@ + text::joined(d.symbols, ", "@) + "\n"@
    } else {
        Seq::empty()
    })
}

/// The lines on each detection.
pub open spec fn detection_lines(list: Seq<detection::DetectionModel>) -> Seq<char>
    decreases list.len(),
{
    if list.len() == 0 {
        Seq::empty()
    } else {
        detection_lines(list.drop_last()) + detection_text(list.last())
    }
}

/// The lines on the instrumentation.
pub open spec fn instrumentation_text(info: InfoModel) -> Seq<char> {
    if info.instrumentation.len() == 0 {
        "Instrumentation: none detected\n"@
    } else {
        "Instrumentation:\n"@ + detection_lines(info.instrumentation)
    }
}

/// A line with a label and a value.
pub open spec fn field(label: Seq<char>, value: Seq<char>) -> Seq<char> {
    label + value + "\n"@
}

/// The lines on what guards the stack and the tables of a file.
pub open spec fn memory_guards_text(h: hardening::HardeningModel) -> Seq<char> {
    "Hardening:\n"@ + field("  NX:      "@, either(h.nx, "enabled"@, "DISABLED"@)) + field(
        "  RELRO:   "@,
        h.relro,
    ) + field("  Canary:  "@, either(h.canary, "found"@, "not found"@))
}

/// The lines on what guards the code of a file.
pub open spec fn code_guards_text(h: hardening::HardeningModel) -> Seq<char> {
    field("  CET:     "@, either(h.cet, "property note present"@, "no"@)) + field(
        "  Fortify: "@,
        either(h.fortify, "found"@, "not found"@),
    ) + field("  PIE:     "@, either(h.pie, "yes"@, "no"@))
}

/// The lines on the hardening, where it is known.
pub open spec fn hardening_text(info: InfoModel) -> Seq<char> {
    match info.hardening {
        Some(h) => memory_guards_text(h) + code_guards_text(h),
        None => Seq::empty(),
    }
}

/// The line on one section.
pub open spec fn section_text(s: SectionInfoModel) -> Seq<char> {
    "  "@ + text::pad_right(s.name, 20) + " "@ + text::prefixed_hex_padded(s.address as nat, 10)
        + "  "@ + text::pad_left(text::dec(s.size as nat), 8) + "\n"@
}

/// The line on each section.
pub open spec fn section_lines(list: Seq<SectionInfoModel>) -> Seq<char>
    decreases list.len(),
{
    if list.len() == 0 {
        Seq::empty()
    } else {
        section_lines(list.drop_last()) + section_text(list.last())
    }
}

/// The lines on the sections.
pub open spec fn sections_text(info: InfoModel) -> Seq<char> {
    "Sections ("@ + text::dec(info.sections.len()) + "):\n"@ + section_lines(info.sections)
}

/// The passport as it is printed.
pub open spec fn info_text(info: InfoModel) -> Seq<char> {
    head_text(info) + interpreter_text(info) + compiler_text(info) + symbols_text(info)
        + instrumentation_text(info) + hardening_text(info) + sections_text(info)
}

fn choose_text<'a>(b: bool, yes: &'a str, no: &'a str) -> (r: &'a str)
    ensures
        r@ == either(b, yes@, no@),
{
    if b {
        yes
    } else {
        no
    }
}

fn push_field(out: &mut String, label: &str, value: &str)
    ensures
        final(out)@ == old(out)@ + field(label@, value@),
{
    let ghost before = out@;
    out.append(label);
    out.append(value);
    out.append("\n");
    assert(out@ =~= before + field(label@, value@));
}

fn push_head(out: &mut String, info: &BinaryInfo)
    ensures
        final(out)@ == old(out)@ + head_text(info@),
{
    let ghost before = out@;
    out.append("Format:      ");
    out.append(info.format.as_str());
    out.append(" (");
    text::push_dec(out, info.bits as u64);
    out.append("-bit, ");
    out.append(info.endianness.as_str());
    let ghost half = "Format:      "@ + info.format@ + " ("@ + text::dec(info.bits as nat)
        + "-bit, "@ + info.endianness@;
    assert(out@ =~= before + half);
    out.append(" endian)\nArch:        ");
    out.append(info.architecture.as_str());
    out.append("\nKind:        ");
    out.append(info.kind.as_str());
    out.append("\nEntry point: ");
    text::push_prefixed_hex(out, info.entry_point);
    out.append("\n");
    assert(out@ =~= before + head_text(info@));
}

fn push_origin(out: &mut String, info: &BinaryInfo)
    ensures
        final(out)@ == old(out)@ + interpreter_text(info@) + compiler_text(info@),
{
    let ghost before = out@;
    if let Some(interp) = &info.interpreter {
        out.append("Interpreter: ");
        out.append(interp.as_str());
        out.append("\n");
    }
    assert(out@ =~= before + interpreter_text(info@));
    let ghost mid = out@;
    if !info.compiler.is_empty() {
        out.append("Compiler:    ");
        text::push_joined(out, &info.compiler, "; ");
        out.append("\n");
    }
    assert(out@ =~= mid + compiler_text(info@));
}

fn push_symbols(out: &mut String, info: &BinaryInfo)
    ensures
        final(out)@ == old(out)@ + symbols_text(info@),
{
    let ghost before = out@;
    out.append("Symbols:     ");
    out.append(choose_text(info.stripped, "stripped", "present (.symtab)"));
    out.append("\n");
    if !info.needed_libs.is_empty() {
        out.append("Needed libs:\n");
        let ghost mid = out@;
        let ghost libs = text::texts(info.needed_libs@);
        let mut i: usize = 0;
        assert(out@ =~= mid + library_lines(libs.take(0)));
        while i < info.needed_libs.len()
            invariant
                i <= info.needed_libs.len(),
                libs == text::texts(info.needed_libs@),
                out@ == mid + library_lines(libs.take(i as int)),
            decreases info.needed_libs.len() - i,
        {
            out.append("  ");
            out.append(info.needed_libs[i].as_str());
            out.append("\n");
            assert(libs.take(i + 1).drop_last() =~= libs.take(i as int));
            assert(libs.take(i + 1).last() == info.needed_libs@[i as int]@);
            i = i + 1;
            assert(out@ =~= mid + library_lines(libs.take(i as int)));
        }
        assert(libs.take(i as int) =~= libs);
    }
    assert(out@ =~= before + symbols_text(info@));
}

fn push_detection(out: &mut String, d: &Detection)
    ensures
        final(out)@ == old(out)@ + detection_text(d@),
{
    let ghost before = out@;
    out.append("  ");
    out.append(d.name.as_str());
    if let Some(lib) = &d.linked_lib {
        out.append("  [linked: ");
        out.append(lib.as_str());
        out.append("]");
    }
    out.append("\n");
    if !d.symbols.is_empty() {
        out.append("    evidence: ");
        text::push_joined(out, &d.symbols, ", ");
        out.append("\n");
    }
    assert(out@ =~= before + detection_text(d@));
}

fn push_instrumentation(out: &mut String, info: &BinaryInfo)
    ensures
        final(out)@ == old(out)@ + instrumentation_text(info@),
{
    let ghost before = out@;
    if info.instrumentation.is_empty() {
        out.append("Instrumentation: none detected\n");
    } else {
        out.append("Instrumentation:\n");
        let ghost mid = out@;
        let ghost list = detection::detection_models(info.instrumentation@);
        let mut i: usize = 0;
        assert(out@ =~= mid + detection_lines(list.take(0)));
        while i < info.instrumentation.len()
            invariant
                i <= info.instrumentation.len(),
                list == detection::detection_models(info.instrumentation@),
                out@ == mid + detection_lines(list.take(i as int)),
            decreases info.instrumentation.len() - i,
        {
            push_detection(out, &info.instrumentation[i]);
            assert(list.take(i + 1).drop_last() =~= list.take(i as int));
            assert(list.take(i + 1).last() == info.instrumentation@[i as int]@);
            i = i + 1;
            assert(out@ =~= mid + detection_lines(list.take(i as int)));
        }
        assert(list.take(i as int) =~= list);
    }
    assert(out@ =~= before + instrumentation_text(info@));
}

fn push_memory_guards(out: &mut String, h: &Hardening)
    ensures
        final(out)@ == old(out)@ + memory_guards_text(h@),
{
    let ghost before = out@;
    out.append("Hardening:\n");
    let ghost head = "Hardening:\n"@;
    push_field(out, "  NX:      ", choose_text(h.nx, "enabled", "DISABLED"));
    let ghost nx = head + field("  NX:      "@, either(h.nx, "enabled"@, "DISABLED"@));
    assert(out@ =~= before + nx);
    push_field(out, "  RELRO:   ", h.relro.as_str());
    let ghost relro = nx + field("  RELRO:   "@, h.relro@);
    assert(out@ =~= before + relro);
    push_field(out, "  Canary:  ", choose_text(h.canary, "found", "not found"));
    assert(out@ =~= before + memory_guards_text(h@));
}

fn push_code_guards(out: &mut String, h: &Hardening)
    ensures
        final(out)@ == old(out)@ + code_guards_text(h@),
{
    let ghost before = out@;
    push_field(out, "  CET:     ", choose_text(h.cet, "property note present", "no"));
    let ghost cet = field("  CET:     "@, either(h.cet, "property note present"@, "no"@));
    push_field(out, "  Fortify: ", choose_text(h.fortify, "found", "not found"));
    let ghost fortify = cet + field("  Fortify: "@, either(h.fortify, "found"@, "not found"@));
    assert(out@ =~= before + fortify);
    push_field(out, "  PIE:     ", choose_text(h.pie, "yes", "no"));
    assert(out@ =~= before + code_guards_text(h@));
}

fn push_hardening(out: &mut String, info: &BinaryInfo)
    ensures
        final(out)@ == old(out)@ + hardening_text(info@),
{
    let ghost before = out@;
    if let Some(h) = &info.hardening {
        push_memory_guards(out, h);
        push_code_guards(out, h);
        assert(out@ =~= before + (memory_guards_text(h@) + code_guards_text(h@)));
    } else {
        assert(out@ =~= before + hardening_text(info@));
    }
}

fn push_sections(out: &mut String, info: &BinaryInfo)
    ensures
        final(out)@ == old(out)@ + sections_text(info@),
{
    let ghost before = out@;
    out.append("Sections (");
    text::push_dec(out, info.sections.len() as u64);
    out.append("):\n");
    let ghost mid = out@;
    let ghost list = section_models(info.sections@);
    let mut i: usize = 0;
    assert(out@ =~= mid + section_lines(list.take(0)));
    while i < info.sections.len()
        invariant
            i <= info.sections.len(),
            list == section_models(info.sections@),
            out@ == mid + section_lines(list.take(i as int)),
        decreases info.sections.len() - i,
    {
        let section = &info.sections[i];
        let ghost here = out@;
        out.append("  ");
        text::push_pad_right(out, section.name.as_str(), 20);
        out.append(" ");
        text::push_prefixed_hex_padded(out, section.address, 10);
        out.append("  ");
        text::push_dec_padded(out, section.size, 8);
        out.append("\n");
        assert(out@ =~= here + section_text(section@));
        assert(list.take(i + 1).drop_last() =~= list.take(i as int));
        assert(list.take(i + 1).last() == info.sections@[i as int]@);
        i = i + 1;
        assert(out@ =~= mid + section_lines(list.take(i as int)));
    }
    assert(list.take(i as int) =~= list);
    assert(out@ =~= before + sections_text(info@));
}

impl BinaryInfo {
    /// The passport as it is printed.
    pub fn to_text(&self) -> (out: String)
        ensures
            out@ == info_text(self@),
    {
        let mut out = String::new();
        push_head(&mut out, self);
        push_origin(&mut out, self);
        push_symbols(&mut out, self);
        push_instrumentation(&mut out, self);
        push_hardening(&mut out, self);
        push_sections(&mut out, self);
        assert(out@ =~= info_text(self@));
        out
    }
}

/// The passport states what the header, the sections and the tables of the file hold: a file is
/// stripped exactly where its static symbol table is empty, and a section whose name cannot be read
/// gets a stand-in.
pub proof fn lemma_passport(
    file: image::ImageModel,
    hardening: Option<hardening::HardeningModel>,
    i: int,
)
    ensures
        ({
            let info = info_with(file, hardening);
            &&& info.format == file.header.format
            &&& info.architecture == file.header.architecture
            &&& info.bits == if file.header.is_64 {
                64u8
            } else {
                32u8
            }
            &&& info.endianness == file.header.endianness
            &&& info.kind == file.header.kind
            &&& info.entry_point == file.header.entry
            &&& info.stripped <==> file.symbols.len() == 0
            &&& info.compiler == dynamic::compiler_remarks(file)
            &&& info.needed_libs == dynamic::file_libraries(file)
            &&& info.instrumentation == detection::detections(
                detection::signature_table(),
                detection::file_symbol_names(file),
                dynamic::file_libraries(file),
            )
            &&& info.hardening == hardening
            &&& info.sections.len() == file.sections.len()
            &&& 0 <= i < file.sections.len() ==> {
                let section = info.sections[i];
                &&& section.address == file.sections[i].address
                &&& section.size == file.sections[i].size
                &&& section.name == if file.sections[i].name is Some {
                    file.sections[i].name->0
                } else {
                    "<unnamed>"@
                }
            }
        }),
{
}

/// The interpreter is the text of its section without the zeros at its end, where the file holds
/// that section.
pub proof fn lemma_interpreter(
    file: image::ImageModel,
    hardening: Option<hardening::HardeningModel>,
)
    ensures
        ({
            let interpreter = info_with(file, hardening).interpreter;
            &&& interpreter is Some <==> file.interp is Some && file.interp->0.data is Some
            &&& interpreter is Some ==> {
                let whole = text::lossy_text(file.interp->0.data->0);
                &&& interpreter->0.is_prefix_of(whole)
                &&& forall|i: int| interpreter->0.len() <= i < whole.len() ==> #[trigger] whole[i]
                    == '\0'
                &&& interpreter->0.len() > 0 ==> interpreter->0.last() != '\0'
            }
        }),
{
    if file.interp is Some && file.interp->0.data is Some {
        text::lemma_nuls_cut(text::lossy_text(file.interp->0.data->0));
    }
}

/// The passport is printed in seven parts, one behind the other.
pub proof fn lemma_info_parts(info: InfoModel)
    ensures
        info_text(info) == head_text(info) + interpreter_text(info) + compiler_text(info)
            + symbols_text(info) + instrumentation_text(info) + hardening_text(info)
            + sections_text(info),
        head_text(info) == "Format:      "@ + info.format + " ("@ + text::dec(info.bits as nat)
            + "-bit, "@ + info.endianness + " endian)\nArch:        "@ + info.architecture
            + "\nKind:        "@ + info.kind + "\nEntry point: "@ + text::prefixed_hex(
            info.entry_point as nat,
        ) + "\n"@,
        interpreter_text(info) == if info.interpreter is Some {
            "Interpreter: "@ + info.interpreter->0 + "\n"@
        } else {
            Seq::empty()
        },
        compiler_text(info) == if info.compiler.len() == 0 {
            Seq::empty()
        } else {
            "Compiler:    "@ + text::joined(info.compiler, "; "@) + "\n"@
        },
        info.stripped && info.needed_libs.len() == 0 ==> symbols_text(info) == "Symbols:     "@
            + "stripped"@ + "\n"@ + Seq::empty(),
        !info.stripped && info.needed_libs.len() == 0 ==> symbols_text(info) == "Symbols:     "@
            + "present (.symtab)"@ + "\n"@ + Seq::empty(),
        info.stripped && info.needed_libs.len() > 0 ==> symbols_text(info) == "Symbols:     "@
            + "stripped"@ + "\n"@ + ("Needed libs:\n"@ + library_lines(info.needed_libs)),
        !info.stripped && info.needed_libs.len() > 0 ==> symbols_text(info) == "Symbols:     "@
            + "present (.symtab)"@ + "\n"@ + ("Needed libs:\n"@ + library_lines(info.needed_libs)),
        instrumentation_text(info) == if info.instrumentation.len() == 0 {
            "Instrumentation: none detected\n"@
        } else {
            "Instrumentation:\n"@ + detection_lines(info.instrumentation)
        },
        sections_text(info) == "Sections ("@ + text::dec(info.sections.len()) + "):\n"@
            + section_lines(info.sections),
{
}

/// Libraries, detections and sections have lines of their own, each behind those of the ones before
/// it.
pub proof fn lemma_info_lines(
    libs: Seq<Seq<char>>,
    lib: Seq<char>,
    list: Seq<detection::DetectionModel>,
    d: detection::DetectionModel,
    sections: Seq<SectionInfoModel>,
    section: SectionInfoModel,
)
    ensures
        library_lines(Seq::empty()) == Seq::<char>::empty(),
        library_lines(libs.push(lib)) == library_lines(libs) + "  "@ + lib + "\n"@,
        detection_lines(Seq::empty()) == Seq::<char>::empty(),
        detection_lines(list.push(d)) == detection_lines(list) + ("  "@ + d.name + (
        if d.linked_lib is Some {
            "  [linked: "@ + d.linked_lib->0 + "]"@
        } else {
            Seq::empty()
        }) + "\n"@ + (if d.symbols.len() == 0 {
            Seq::empty()
        } else {
            "    evidence: "@ + text::joined(d.symbols, ", "@) + "\n"@
        })),
        section_lines(Seq::empty()) == Seq::<char>::empty(),
        section_lines(sections.push(section)) == section_lines(sections) + ("  "@
            + text::pad_right(section.name, 20) + " "@ + text::prefixed_hex_padded(
            section.address as nat,
            10,
        ) + "  "@ + text::pad_left(text::dec(section.size as nat), 8) + "\n"@),
{
    assert(libs.push(lib).drop_last() =~= libs);
    assert(list.push(d).drop_last() =~= list);
    assert(sections.push(section).drop_last() =~= sections);
}

/// The hardening is printed where it is known: a line for each guard, which says whether it is
/// there.
pub proof fn lemma_hardening_lines(info: InfoModel)
    ensures
        info.hardening is None ==> hardening_text(info) == Seq::<char>::empty(),
        info.hardening is Some ==> {
            let h = info.hardening->0;
            hardening_text(info) == "Hardening:\n"@ + ("  NX:      "@ + (if h.nx {
                "enabled"@
            } else {
                "DISABLED"@
            }) + "\n"@) + ("  RELRO:   "@ + h.relro + "\n"@) + ("  Canary:  "@ + (if h.canary {
                "found"@
            } else {
                "not found"@
            }) + "\n"@) + (("  CET:     "@ + (if h.cet {
                "property note present"@
            } else {
                "no"@
            }) + "\n"@) + ("  Fortify: "@ + (if h.fortify {
                "found"@
            } else {
                "not found"@
            }) + "\n"@) + ("  PIE:     "@ + (if h.pie {
                "yes"@
            } else {
                "no"@
            }) + "\n"@))
        },
{
}

} // verus!
