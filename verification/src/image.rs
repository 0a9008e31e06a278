//! An object file as plain values: what the analysis reads of it, and the calls that get it out of
//! the raw bytes.
use object::elf::FileHeader64;
use object::read::coff::ImageSymbol;
use object::read::elf::ElfFile;
use object::read::elf::ProgramHeader;
use object::Endianness;
use object::LittleEndian;
use object::Object;
use object::ObjectKind;
use object::ObjectSection;
use object::ObjectSymbol;
use object::RelocationFlags;
use object::RelocationTarget;
use object::SymbolKind;
use object::SymbolScope;
use vstd::prelude::*;

verus! {

/// What the file header says.
pub struct Header {
    pub format: String,
    pub architecture: String,
    pub is_64: bool,
    pub endianness: String,
    pub kind: String,
    pub is_dynamic: bool,
    pub entry: u64,
}

/// The values of a [`Header`].
pub struct HeaderModel {
    pub format: Seq<char>,
    pub architecture: Seq<char>,
    pub is_64: bool,
    pub endianness: Seq<char>,
    pub kind: Seq<char>,
    pub is_dynamic: bool,
    pub entry: u64,
}

impl View for Header {
    type V = HeaderModel;

    open spec fn view(&self) -> HeaderModel {
        HeaderModel {
            format: self.format@,
            architecture: self.architecture@,
            is_64: self.is_64,
            endianness: self.endianness@,
            kind: self.kind@,
            is_dynamic: self.is_dynamic,
            entry: self.entry,
        }
    }
}

/// One entry of a symbol table. The name is absent where it is not valid UTF-8 or lies outside the
/// string table.
pub struct SymbolEntry {
    pub index: usize,
    pub name: Option<String>,
    pub is_text: bool,
    pub address: u64,
    pub size: u64,
    pub exported: bool,
}

/// The values of a [`SymbolEntry`].
pub struct SymbolModel {
    pub index: usize,
    pub name: Option<Seq<char>>,
    pub is_text: bool,
    pub address: u64,
    pub size: u64,
    pub exported: bool,
}

/// The characters of a string that may be absent.
pub open spec fn text_option(s: Option<String>) -> Option<Seq<char>> {
    match s {
        Some(s) => Some(s@),
        None => None,
    }
}

impl View for SymbolEntry {
    type V = SymbolModel;

    open spec fn view(&self) -> SymbolModel {
        SymbolModel {
            index: self.index,
            name: text_option(self.name),
            is_text: self.is_text,
            address: self.address,
            size: self.size,
            exported: self.exported,
        }
    }
}

/// One dynamic relocation: where it applies, its ELF type, and the dynamic symbol that it names.
pub struct RelocationEntry {
    pub address: u64,
    pub elf_type: Option<u32>,
    pub symbol: Option<usize>,
}

/// The header of one section.
pub struct SectionHeader {
    pub name: Option<String>,
    pub address: u64,
    pub size: u64,
}

/// The values of a [`SectionHeader`].
pub struct SectionHeaderModel {
    pub name: Option<Seq<char>>,
    pub address: u64,
    pub size: u64,
}

impl View for SectionHeader {
    type V = SectionHeaderModel;

    open spec fn view(&self) -> SectionHeaderModel {
        SectionHeaderModel {
            name: text_option(self.name),
            address: self.address,
            size: self.size,
        }
    }
}

/// A section with its contents. The data is absent where the file does not hold it.
pub struct Section {
    pub address: u64,
    pub size: u64,
    pub data: Option<Vec<u8>>,
}

/// The values of a [`Section`].
pub struct SectionModel {
    pub address: u64,
    pub size: u64,
    pub data: Option<Seq<u8>>,
}

impl View for Section {
    type V = SectionModel;

    open spec fn view(&self) -> SectionModel {
        SectionModel {
            address: self.address,
            size: self.size,
            data: match self.data {
                Some(d) => Some(d@),
                None => None,
            },
        }
    }
}

/// The type and the flags of one program header.
pub struct Segment {
    pub kind: u32,
    pub flags: u32,
}

/// The values of the symbols in a list.
pub open spec fn symbol_models(list: Seq<SymbolEntry>) -> Seq<SymbolModel> {
    list.map_values(|s: SymbolEntry| s@)
}

/// The values of the section headers in a list.
pub open spec fn header_models(list: Seq<SectionHeader>) -> Seq<SectionHeaderModel> {
    list.map_values(|s: SectionHeader| s@)
}

/// The values of a section that may be absent.
pub open spec fn section_option(s: Option<Section>) -> Option<SectionModel> {
    match s {
        Some(s) => Some(s@),
        None => None,
    }
}

/// What `object::File::parse` makes of the header of these bytes; `None` where it fails.
pub uninterp spec fn object_header(raw: Seq<u8>) -> Option<HeaderModel>;

/// The address that `Object::relative_address_base` gives for these bytes: the image base of a PE
/// file, and zero for the other formats.
pub uninterp spec fn object_base(raw: Seq<u8>) -> u64;

/// Where a symbol of a 64-bit PE file is said to stand: its storage class, the address of its
/// section relative to the base, where it has a section, and its value.
#[derive(Clone, Copy, Debug, PartialEq, Eq, Structural)]
pub struct Location {
    pub class: u8,
    pub section: Option<u32>,
    pub value: u32,
}

/// Where the symbols that `PeFile64::symbols` lists for these bytes are said to stand; empty for the
/// other formats.
pub uninterp spec fn pe_locations(raw: Seq<u8>) -> Seq<Location>;

/// The storage classes of symbols whose values are addresses.
pub const CLASS_EXTERNAL: u8 = 2;

pub const CLASS_STATIC: u8 = 3;

pub const CLASS_LABEL: u8 = 6;

pub const CLASS_WEAK_EXTERNAL: u8 = 105;

/// A symbol of this storage class has an address.
pub open spec fn has_address(class: u8) -> bool {
    class == CLASS_EXTERNAL || class == CLASS_STATIC || class == CLASS_LABEL || class
        == CLASS_WEAK_EXTERNAL
}

/// The sum of the base, the address of the section and the value is an address, where the symbol
/// has one.
pub open spec fn address_fits(base: u64, location: Location) -> bool {
    match location.section {
        Some(section) => has_address(location.class) ==> base + section + location.value
            <= u64::MAX,
        None => true,
    }
}

/// No address of a symbol overflows.
pub open spec fn addresses_fit(base: u64, locations: Seq<Location>) -> bool {
    forall|i: int| 0 <= i < locations.len() ==> address_fits(base, #[trigger] locations[i])
}

/// What `Object::symbols` lists for these bytes.
pub uninterp spec fn object_symbols(raw: Seq<u8>) -> Seq<SymbolModel>;

/// What `Object::dynamic_symbols` lists for these bytes.
pub uninterp spec fn object_dynamic_symbols(raw: Seq<u8>) -> Seq<SymbolModel>;

/// What `Object::dynamic_relocations` lists for these bytes; `None` where the format has none.
pub uninterp spec fn object_dynamic_relocations(raw: Seq<u8>) -> Option<Seq<RelocationEntry>>;

/// What `Object::sections` lists for these bytes.
pub uninterp spec fn object_sections(raw: Seq<u8>) -> Seq<SectionHeaderModel>;

/// What `Object::section_by_name` finds in these bytes.
pub uninterp spec fn object_section(raw: Seq<u8>, name: Seq<char>) -> Option<SectionModel>;

/// The program headers that `ElfFile::elf_program_headers` lists for these bytes, read as a 64-bit
/// ELF file; `None` where `ElfFile::parse` fails.
pub uninterp spec fn elf64_segments(raw: Seq<u8>) -> Option<Seq<Segment>>;

/// `object::File::parse`, and its header as plain values: the format, architecture, byte order and
/// kind under the names that their `Debug` prints. The contract claims that the outcome depends on
/// the bytes alone.
#[verifier::external_body]
fn parse_header(raw: &[u8]) -> (r: Option<Header>)
    ensures
        match r {
            Some(h) => object_header(raw@) == Some(h@),
            None => object_header(raw@) is None,
        },
{
    let file = object::File::parse(raw).ok()?;
    Some(Header {
        format: format!("{:?}", file.format()),
        architecture: format!("{:?}", file.architecture()),
        is_64: file.is_64(),
        endianness: format!("{:?}", file.endianness()),
        kind: format!("{:?}", file.kind()),
        is_dynamic: matches!(file.kind(), ObjectKind::Dynamic),
        entry: file.entry(),
    })
}

/// `Object::relative_address_base`. The contract claims that the address depends on the bytes alone.
#[verifier::external_body]
fn read_base(raw: &[u8]) -> (r: u64)
    requires
        object_header(raw@) is Some,
    ensures
        r == object_base(raw@),
{
    object::File::parse(raw).unwrap().relative_address_base()
}

/// `PeFile64::symbols` and, for each symbol, `CoffSymbol::coff_symbol`, the fields of its
/// `ImageSymbol` and the header that `SectionTable::section` finds for it. The contract claims that
/// the list depends on the bytes alone.
#[verifier::external_body]
fn read_locations(raw: &[u8]) -> (r: Vec<Location>)
    requires
        object_header(raw@) is Some,
    ensures
        r@ == pe_locations(raw@),
{
    let object::File::Pe64(file) = object::File::parse(raw).unwrap() else {
        return Vec::new();
    };
    let table = file.section_table();
    file.symbols().map(|symbol| Location {
        class: symbol.coff_symbol().storage_class(),
        section: symbol.coff_symbol().section().and_then(|index| table.section(index).ok())
            .map(|header| header.virtual_address.get(LittleEndian)),
        value: symbol.coff_symbol().value(),
    }).collect()
}

/// `Object::symbols`, each symbol as plain values. The contract claims that the list depends on the
/// bytes alone. The address of a symbol in a PE file is the sum of the base, the address of its
/// section and its value, and the sum is taken without a test, so it must not overflow.
#[verifier::external_body]
fn read_symbols(raw: &[u8]) -> (r: Vec<SymbolEntry>)
    requires
        object_header(raw@) is Some,
        addresses_fit(object_base(raw@), pe_locations(raw@)),
    ensures
        symbol_models(r@) == object_symbols(raw@),
{
    let file = object::File::parse(raw).unwrap();
    file.symbols().map(|symbol| SymbolEntry {
        index: symbol.index().0,
        name: symbol.name().ok().map(str::to_string),
        is_text: matches!(symbol.kind(), SymbolKind::Text),
        address: symbol.address(),
        size: symbol.size(),
        exported: matches!(symbol.scope(), SymbolScope::Dynamic),
    }).collect()
}

/// `Object::dynamic_symbols`, each symbol as plain values. The contract claims that the list
/// depends on the bytes alone.
#[verifier::external_body]
fn read_dynamic_symbols(raw: &[u8]) -> (r: Vec<SymbolEntry>)
    requires
        object_header(raw@) is Some,
    ensures
        symbol_models(r@) == object_dynamic_symbols(raw@),
{
    let file = object::File::parse(raw).unwrap();
    file.dynamic_symbols().map(|symbol| SymbolEntry {
        index: symbol.index().0,
        name: symbol.name().ok().map(str::to_string),
        is_text: matches!(symbol.kind(), SymbolKind::Text),
        address: symbol.address(),
        size: symbol.size(),
        exported: matches!(symbol.scope(), SymbolScope::Dynamic),
    }).collect()
}

/// `Object::dynamic_relocations`, each relocation as plain values. The contract claims that the
/// list depends on the bytes alone.
#[verifier::external_body]
fn read_dynamic_relocations(raw: &[u8]) -> (r: Option<Vec<RelocationEntry>>)
    requires
        object_header(raw@) is Some,
    ensures
        match r {
            Some(list) => object_dynamic_relocations(raw@) == Some(list@),
            None => object_dynamic_relocations(raw@) is None,
        },
{
    let file = object::File::parse(raw).unwrap();
    Some(file.dynamic_relocations()?.map(|(address, reloc)| RelocationEntry {
        address,
        elf_type: match reloc.flags() {
            RelocationFlags::Elf { r_type } => Some(r_type),
            _ => None,
        },
        symbol: match reloc.target() {
            RelocationTarget::Symbol(index) => Some(index.0),
            _ => None,
        },
    }).collect())
}

/// `Object::sections`, the header of each as plain values. The contract claims that the list
/// depends on the bytes alone.
#[verifier::external_body]
fn read_sections(raw: &[u8]) -> (r: Vec<SectionHeader>)
    requires
        object_header(raw@) is Some,
    ensures
        header_models(r@) == object_sections(raw@),
{
    let file = object::File::parse(raw).unwrap();
    file.sections().map(|section| SectionHeader {
        name: section.name().ok().map(str::to_string),
        address: section.address(),
        size: section.size(),
    }).collect()
}

/// `Object::section_by_name`, the section as plain values. The contract claims that the section
/// depends on the bytes and the name alone.
#[verifier::external_body]
fn read_section(raw: &[u8], name: &str) -> (r: Option<Section>)
    requires
        object_header(raw@) is Some,
    ensures
        section_option(r) == object_section(raw@, name@),
{
    let file = object::File::parse(raw).unwrap();
    let section = file.section_by_name(name)?;
    Some(Section {
        address: section.address(),
        size: section.size(),
        data: section.data().ok().map(<[u8]>::to_vec),
    })
}

/// `ElfFile::parse` on a 64-bit ELF file, and the type and flags of each of its program headers.
/// The contract claims that the outcome depends on the bytes alone.
#[verifier::external_body]
pub(crate) fn read_segments(raw: &[u8]) -> (r: Option<Vec<Segment>>)
    ensures
        match r {
            Some(list) => elf64_segments(raw@) == Some(list@),
            None => elf64_segments(raw@) is None,
        },
{
    let elf: ElfFile<FileHeader64<Endianness>> = ElfFile::parse(raw).ok()?;
    let endian = elf.endian();
    Some(elf.elf_program_headers().iter().map(|ph| Segment {
        kind: ph.p_type(endian),
        flags: ph.p_flags(endian),
    }).collect())
}

/// What the analysis reads of an object file.
pub struct ObjectImage {
    pub header: Header,
    pub symbols: Vec<SymbolEntry>,
    pub dynamic_symbols: Vec<SymbolEntry>,
    pub dynamic_relocations: Option<Vec<RelocationEntry>>,
    pub sections: Vec<SectionHeader>,
    pub interp: Option<Section>,
    pub plt_sec: Option<Section>,
    pub comment: Option<Section>,
    pub dynstr: Option<Section>,
    pub dynamic: Option<Section>,
    pub text: Option<Section>,
    pub gnu_property: Option<Section>,
}

/// The values of an [`ObjectImage`].
#[verifier::ext_equal]
pub struct ImageModel {
    pub header: HeaderModel,
    pub symbols: Seq<SymbolModel>,
    pub dynamic_symbols: Seq<SymbolModel>,
    pub dynamic_relocations: Option<Seq<RelocationEntry>>,
    pub sections: Seq<SectionHeaderModel>,
    pub interp: Option<SectionModel>,
    pub plt_sec: Option<SectionModel>,
    pub comment: Option<SectionModel>,
    pub dynstr: Option<SectionModel>,
    pub dynamic: Option<SectionModel>,
    pub text: Option<SectionModel>,
    pub gnu_property: Option<SectionModel>,
}

impl View for ObjectImage {
    type V = ImageModel;

    open spec fn view(&self) -> ImageModel {
        ImageModel {
            header: self.header@,
            symbols: symbol_models(self.symbols@),
            dynamic_symbols: symbol_models(self.dynamic_symbols@),
            dynamic_relocations: match self.dynamic_relocations {
                Some(list) => Some(list@),
                None => None,
            },
            sections: header_models(self.sections@),
            interp: section_option(self.interp),
            plt_sec: section_option(self.plt_sec),
            comment: section_option(self.comment),
            dynstr: section_option(self.dynstr),
            dynamic: section_option(self.dynamic),
            text: section_option(self.text),
            gnu_property: section_option(self.gnu_property),
        }
    }
}

/// What the analysis reads of the object file in `raw`; `None` where `raw` is no object file, or one
/// in which the address of a symbol overflows.
pub open spec fn image_of(raw: Seq<u8>) -> Option<ImageModel> {
    match object_header(raw) {
        None => None,
        Some(header) => if !addresses_fit(object_base(raw), pe_locations(raw)) {
            None
        } else {
            Some(
                ImageModel {
                    header,
                    symbols: object_symbols(raw),
                    dynamic_symbols: object_dynamic_symbols(raw),
                    dynamic_relocations: object_dynamic_relocations(raw),
                    sections: object_sections(raw),
                    interp: object_section(raw, ".interp"@),
                    plt_sec: object_section(raw, ".plt.sec"@),
                    comment: object_section(raw, ".comment"@),
                    dynstr: object_section(raw, ".dynstr"@),
                    dynamic: object_section(raw, ".dynamic"@),
                    text: object_section(raw, ".text"@),
                    gnu_property: object_section(raw, ".note.gnu.property"@),
                },
            )
        },
    }
}

/// Whether no address of a symbol overflows.
pub fn check_addresses(base: u64, locations: &Vec<Location>) -> (r: bool)
    ensures
        r == addresses_fit(base, locations@),
{
    let mut i: usize = 0;
    while i < locations.len()
        invariant
            i <= locations.len(),
            forall|k: int| 0 <= k < i ==> address_fits(base, #[trigger] locations@[k]),
        decreases locations.len() - i,
    {
        let location = locations[i];
        if let Some(section) = location.section {
            let placed = location.class == CLASS_EXTERNAL || location.class == CLASS_STATIC
                || location.class == CLASS_LABEL || location.class == CLASS_WEAK_EXTERNAL;
            let offset: u64 = section as u64 + location.value as u64;
            if placed && base > u64::MAX - offset {
                assert(!address_fits(base, locations@[i as int]));
                return false;
            }
        }
        i = i + 1;
    }
    true
}

impl ObjectImage {
    /// Reads the object file in `raw`.
    pub fn parse(raw: &[u8]) -> (r: Option<ObjectImage>)
        ensures
            match r {
                Some(image) => image_of(raw@) == Some(image@),
                None => image_of(raw@) is None,
            },
    {
        match parse_header(raw) {
            None => None,
            Some(header) => if !check_addresses(read_base(raw), &read_locations(raw)) {
                None
            } else {
                Some(ObjectImage {
                    header,
                    symbols: read_symbols(raw),
                    dynamic_symbols: read_dynamic_symbols(raw),
                    dynamic_relocations: read_dynamic_relocations(raw),
                    sections: read_sections(raw),
                    interp: read_section(raw, ".interp"),
                    plt_sec: read_section(raw, ".plt.sec"),
                    comment: read_section(raw, ".comment"),
                    dynstr: read_section(raw, ".dynstr"),
                    dynamic: read_section(raw, ".dynamic"),
                    text: read_section(raw, ".text"),
                    gnu_property: read_section(raw, ".note.gnu.property"),
                })
            },
        }
    }
}

/// A file is read exactly where it has a header and no symbol of a class that has an address, and
/// that has a section, overflows with its base, its section's address and its value.
pub proof fn lemma_readable(raw: Seq<u8>)
    ensures
        image_of(raw) is Some <==> object_header(raw) is Some && forall|i: int|
            0 <= i < pe_locations(raw).len() ==> {
                let location = #[trigger] pe_locations(raw)[i];
                (location.class == 2 || location.class == 3 || location.class == 6 || location.class
                    == 105) && location.section is Some ==> object_base(raw) + location.section->0
                    + location.value <= u64::MAX
            },
{
    let locations = pe_locations(raw);
    assert forall|i: int| 0 <= i < locations.len() implies address_fits(
        object_base(raw),
        #[trigger] locations[i],
    ) == ((locations[i].class == 2 || locations[i].class == 3 || locations[i].class == 6
        || locations[i].class == 105) && locations[i].section is Some ==> object_base(raw)
        + locations[i].section->0 + locations[i].value <= u64::MAX) by {}
}

/// What is read of a file is what it holds: its tables as they are, and of its sections those of
/// these names.
pub proof fn lemma_image(raw: Seq<u8>)
    requires
        image_of(raw) is Some,
    ensures
        ({
            let image = image_of(raw)->0;
            &&& object_header(raw) == Some(image.header)
            &&& image.symbols == object_symbols(raw)
            &&& image.dynamic_symbols == object_dynamic_symbols(raw)
            &&& image.dynamic_relocations == object_dynamic_relocations(raw)
            &&& image.sections == object_sections(raw)
            &&& image.interp == object_section(raw, ".interp"@)
            &&& image.plt_sec == object_section(raw, ".plt.sec"@)
            &&& image.comment == object_section(raw, ".comment"@)
            &&& image.dynstr == object_section(raw, ".dynstr"@)
            &&& image.dynamic == object_section(raw, ".dynamic"@)
            &&& image.text == object_section(raw, ".text"@)
            &&& image.gnu_property == object_section(raw, ".note.gnu.property"@)
        }),
{
}

} // verus!
