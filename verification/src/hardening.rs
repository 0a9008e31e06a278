//! The hardening of a file: what its program headers, its dynamic table and its symbols say of it.
use vstd::prelude::*;

use crate::dynamic;
use crate::image;
use crate::image::ObjectImage;
use crate::image::Segment;
use crate::text;

verus! {

#[derive(Debug)]
pub struct Hardening {
    pub nx: bool,
    pub relro: String,
    pub canary: bool,
    pub cet: bool,
    pub fortify: bool,
    pub pie: bool,
}

/// The values of a [`Hardening`].
pub struct HardeningModel {
    pub nx: bool,
    pub relro: Seq<char>,
    pub canary: bool,
    pub cet: bool,
    pub fortify: bool,
    pub pie: bool,
}

impl View for Hardening {
    type V = HardeningModel;

    open spec fn view(&self) -> HardeningModel {
        HardeningModel {
            nx: self.nx,
            relro: self.relro@,
            canary: self.canary,
            cet: self.cet,
            fortify: self.fortify,
            pie: self.pie,
        }
    }
}

/// The type of the program header that says whether the stack is executable.
pub const PT_GNU_STACK: u32 = 0x6474_e551;

/// The type of the program header of what becomes read-only after relocation.
pub const PT_GNU_RELRO: u32 = 0x6474_e552;

/// The flag of an executable segment.
pub const PF_X: u32 = 1;

/// The stack is not executable; the last header that speaks of it counts.
pub open spec fn stack_protected(segments: Seq<Segment>) -> bool
    decreases segments.len(),
{
    if segments.len() == 0 {
        true
    } else if segments.last().kind == PT_GNU_STACK {
        segments.last().flags & PF_X == 0
    } else {
        stack_protected(segments.drop_last())
    }
}

/// Some segment becomes read-only after relocation.
pub open spec fn has_relro(segments: Seq<Segment>) -> bool {
    exists|i: int| 0 <= i < segments.len() && (#[trigger] segments[i]).kind == PT_GNU_RELRO
}

/// The file asks for all symbols to be bound at start.
pub open spec fn binds_now(file: image::ImageModel) -> bool {
    dynamic::has_tag(dynamic::file_entries(file), dynamic::DT_BIND_NOW) || dynamic::has_tag_bit(
        dynamic::file_entries(file),
        dynamic::DT_FLAGS,
        dynamic::DF_BIND_NOW,
    )
}

/// The symbol is the one that a broken stack guard calls.
pub open spec fn is_canary(symbol: image::SymbolModel) -> bool {
    symbol.name == Some("__stack_chk_fail"@)
}

/// The symbol is a checked variant of a library function.
pub open spec fn is_fortified(symbol: image::SymbolModel) -> bool {
    match symbol.name {
        Some(name) => "_chk"@.is_suffix_of(name) && "__"@.is_prefix_of(name) && name
            != "__stack_chk_fail"@,
        None => false,
    }
}

/// Some symbol of the file satisfies the predicate.
pub open spec fn some_symbol(
    file: image::ImageModel,
    pred: spec_fn(image::SymbolModel) -> bool,
) -> bool {
    exists|i: int|
        0 <= i < (file.symbols + file.dynamic_symbols).len() && pred(
            #[trigger] (file.symbols + file.dynamic_symbols)[i],
        )
}

/// The hardening of a file with these program headers.
pub open spec fn hardening_with(file: image::ImageModel, segments: Seq<Segment>) -> HardeningModel {
    HardeningModel {
        nx: stack_protected(segments),
        relro: if has_relro(segments) && binds_now(file) {
            "full"@
        } else if has_relro(segments) {
            "partial"@
        } else {
            "none"@
        },
        canary: some_symbol(file, |s: image::SymbolModel| is_canary(s)),
        cet: file.gnu_property is Some,
        fortify: some_symbol(file, |s: image::SymbolModel| is_fortified(s)),
        pie: file.header.is_dynamic,
    }
}

/// The guards that show in a symbol table: whether a canary does, and whether a checked function.
fn scan_guards(symbols: &Vec<image::SymbolEntry>) -> (r: (bool, bool))
    ensures
        r.0 == exists|i: int|
            0 <= i < symbols.len() && is_canary(#[trigger] image::symbol_models(symbols@)[i]),
        r.1 == exists|i: int|
            0 <= i < symbols.len() && is_fortified(#[trigger] image::symbol_models(symbols@)[i]),
{
    let mut canary = false;
    let mut fortify = false;
    let ghost all = image::symbol_models(symbols@);
    let mut i: usize = 0;
    while i < symbols.len()
        invariant
            i <= symbols.len(),
            all == image::symbol_models(symbols@),
            canary == exists|k: int| 0 <= k < i && is_canary(#[trigger] all[k]),
            fortify == exists|k: int| 0 <= k < i && is_fortified(#[trigger] all[k]),
        decreases symbols.len() - i,
    {
        assert(all[i as int] == symbols@[i as int]@);
        if let Some(name) = &symbols[i].name {
            let is_guard = text::same_text(name.as_str(), "__stack_chk_fail");
            if is_guard {
                canary = true;
            }
            if text::ends_with(name.as_str(), "_chk") && text::starts_with(name.as_str(), "__")
                && !is_guard {
                fortify = true;
            }
        }
        i = i + 1;
    }
    (canary, fortify)
}

proof fn lemma_some_symbol(file: image::ImageModel, pred: spec_fn(image::SymbolModel) -> bool)
    ensures
        some_symbol(file, pred) == ((exists|i: int|
            0 <= i < file.symbols.len() && pred(#[trigger] file.symbols[i])) || (exists|i: int|
            0 <= i < file.dynamic_symbols.len() && pred(#[trigger] file.dynamic_symbols[i]))),
{
    let all = file.symbols + file.dynamic_symbols;
    let n = file.symbols.len() as int;
    if some_symbol(file, pred) {
        let i = choose|i: int| 0 <= i < all.len() && pred(#[trigger] all[i]);
        if i < n {
            assert(pred(file.symbols[i]));
        } else {
            assert(pred(file.dynamic_symbols[i - n]));
        }
    }
    if exists|i: int| 0 <= i < file.symbols.len() && pred(#[trigger] file.symbols[i]) {
        let i = choose|i: int| 0 <= i < file.symbols.len() && pred(#[trigger] file.symbols[i]);
        assert(pred(all[i]));
    }
    if exists|i: int|
        0 <= i < file.dynamic_symbols.len() && pred(#[trigger] file.dynamic_symbols[i]) {
        let i = choose|i: int|
            0 <= i < file.dynamic_symbols.len() && pred(#[trigger] file.dynamic_symbols[i]);
        assert(all[i + n] == file.dynamic_symbols[i]);
        assert(pred(all[i + n]));
    }
}

/// The hardening of a file with these program headers.
pub fn judge_hardening(file: &ObjectImage, segments: &Vec<Segment>) -> (r: Hardening)
    ensures
        r@ == hardening_with(file@, segments@),
{
    let mut nx = true;
    let mut has_relro_segment = false;
    let mut i: usize = 0;
    while i < segments.len()
        invariant
            i <= segments.len(),
            nx == stack_protected(segments@.take(i as int)),
            has_relro_segment == exists|k: int|
                0 <= k < i && (#[trigger] segments@[k]).kind == PT_GNU_RELRO,
        decreases segments.len() - i,
    {
        let segment = &segments[i];
        proof {
            assert(segments@.take(i + 1).drop_last() =~= segments@.take(i as int));
            assert(segments@.take(i + 1).last() == segments@[i as int]);
        }
        if segment.kind == PT_GNU_STACK {
            nx = segment.flags & PF_X == 0;
        }
        if segment.kind == PT_GNU_RELRO {
            has_relro_segment = true;
        }
        i = i + 1;
    }
    assert(segments@.take(i as int) =~= segments@);
    let bind_now = dynamic::has_dynamic_flag(file, dynamic::DT_BIND_NOW) || dynamic::has_dynamic_flag_value(
        file,
        dynamic::DT_FLAGS,
        dynamic::DF_BIND_NOW,
    );
    let relro = if has_relro_segment && bind_now {
        "full"
    } else if has_relro_segment {
        "partial"
    } else {
        "none"
    };
    let (canary_static, fortify_static) = scan_guards(&file.symbols);
    let (canary_dynamic, fortify_dynamic) = scan_guards(&file.dynamic_symbols);
    proof {
        lemma_some_symbol(file@, |s: image::SymbolModel| is_canary(s));
        lemma_some_symbol(file@, |s: image::SymbolModel| is_fortified(s));
    }
    Hardening {
        nx,
        relro: relro.to_owned(),
        canary: canary_static || canary_dynamic,
        cet: file.gnu_property.is_some(),
        fortify: fortify_static || fortify_dynamic,
        pie: file.header.is_dynamic,
    }
}

/// The hardening of a file; `None` where its bytes are no 64-bit ELF file.
pub open spec fn file_hardening(file: image::ImageModel, raw: Seq<u8>) -> Option<HardeningModel> {
    match image::elf64_segments(raw) {
        Some(segments) => Some(hardening_with(file, segments)),
        None => None,
    }
}

/// The values of a hardening that may be absent.
pub open spec fn hardening_option(h: Option<Hardening>) -> Option<HardeningModel> {
    match h {
        Some(h) => Some(h@),
        None => None,
    }
}

/// The hardening of a file; `raw` holds its bytes.
pub fn check_hardening(file: &ObjectImage, raw: &[u8]) -> (r: Option<Hardening>)
    ensures
        hardening_option(r) == file_hardening(file@, raw@),
{
    match image::read_segments(raw) {
        Some(segments) => Some(judge_hardening(file, &segments)),
        None => None,
    }
}

/// A canary is reported exactly where a symbol of either table, the static or the dynamic one, is
/// the one that a broken stack guard calls.
pub proof fn lemma_canary(file: image::ImageModel, segments: Seq<Segment>)
    ensures
        hardening_with(file, segments).canary <==> (exists|i: int|
            0 <= i < file.symbols.len() && (#[trigger] file.symbols[i]).name == Some(
                "__stack_chk_fail"@,
            )) || (exists|i: int|
            0 <= i < file.dynamic_symbols.len() && (#[trigger] file.dynamic_symbols[i]).name
                == Some("__stack_chk_fail"@)),
{
    let pred = |s: image::SymbolModel| is_canary(s);
    lemma_some_symbol(file, pred);
    if exists|i: int| 0 <= i < file.symbols.len() && pred(#[trigger] file.symbols[i]) {
        let i = choose|i: int| 0 <= i < file.symbols.len() && pred(#[trigger] file.symbols[i]);
        assert(file.symbols[i].name == Some("__stack_chk_fail"@));
    }
    if exists|i: int|
        0 <= i < file.dynamic_symbols.len() && pred(#[trigger] file.dynamic_symbols[i]) {
        let i = choose|i: int|
            0 <= i < file.dynamic_symbols.len() && pred(#[trigger] file.dynamic_symbols[i]);
        assert(file.dynamic_symbols[i].name == Some("__stack_chk_fail"@));
    }
    assert forall|i: int|
        0 <= i < file.symbols.len() && (#[trigger] file.symbols[i]).name == Some(
            "__stack_chk_fail"@,
        ) implies pred(file.symbols[i]) by {}
    assert forall|i: int|
        0 <= i < file.dynamic_symbols.len() && (#[trigger] file.dynamic_symbols[i]).name == Some(
            "__stack_chk_fail"@,
        ) implies pred(file.dynamic_symbols[i]) by {}
}

/// The name starts with two underscores, ends as those of checked functions do, and is not that of
/// what a broken stack guard calls.
pub open spec fn checked_name(name: Option<Seq<char>>) -> bool {
    name is Some && "__"@.is_prefix_of(name->0) && "_chk"@.is_suffix_of(name->0) && name->0
        != "__stack_chk_fail"@
}

/// Checked functions are reported exactly where a symbol of either table has the name of one.
pub proof fn lemma_fortify(file: image::ImageModel, segments: Seq<Segment>)
    ensures
        hardening_with(file, segments).fortify <==> (exists|i: int|
            0 <= i < file.symbols.len() && checked_name((#[trigger] file.symbols[i]).name)) || (
        exists|i: int|
            0 <= i < file.dynamic_symbols.len() && checked_name(
                (#[trigger] file.dynamic_symbols[i]).name,
            )),
{
    let pred = |s: image::SymbolModel| is_fortified(s);
    lemma_some_symbol(file, pred);
    assert forall|s: image::SymbolModel| #[trigger] pred(s) == checked_name(s.name) by {}
    if exists|i: int| 0 <= i < file.symbols.len() && pred(#[trigger] file.symbols[i]) {
        let i = choose|i: int| 0 <= i < file.symbols.len() && pred(#[trigger] file.symbols[i]);
        assert(checked_name(file.symbols[i].name));
    }
    if exists|i: int|
        0 <= i < file.dynamic_symbols.len() && pred(#[trigger] file.dynamic_symbols[i]) {
        let i = choose|i: int|
            0 <= i < file.dynamic_symbols.len() && pred(#[trigger] file.dynamic_symbols[i]);
        assert(checked_name(file.dynamic_symbols[i].name));
    }
    assert forall|i: int|
        0 <= i < file.symbols.len() && checked_name(
            (#[trigger] file.symbols[i]).name,
        ) implies pred(file.symbols[i]) by {}
    assert forall|i: int|
        0 <= i < file.dynamic_symbols.len() && checked_name(
            (#[trigger] file.dynamic_symbols[i]).name,
        ) implies pred(file.dynamic_symbols[i]) by {}
}

/// The stack is not executable exactly where the last program header that speaks of it does not
/// have the flag for that, or none speaks of it.
pub proof fn lemma_nx(file: image::ImageModel, segments: Seq<Segment>)
    ensures
        (forall|i: int|
            0 <= i < segments.len() ==> (#[trigger] segments[i]).kind != 0x6474_e551u32)
            ==> hardening_with(file, segments).nx,
        forall|i: int|
            0 <= i < segments.len() && (#[trigger] segments[i]).kind == 0x6474_e551u32 && (forall|
                k: int,
            |
                i < k < segments.len() ==> (#[trigger] segments[k]).kind != 0x6474_e551u32)
                ==> hardening_with(file, segments).nx == (segments[i].flags & 1u32 == 0),
    decreases segments.len(),
{
    if segments.len() > 0 {
        let front = segments.drop_last();
        let last = segments.len() - 1;
        lemma_nx(file, front);
        assert(segments[last] == segments.last());
        if segments.last().kind != PT_GNU_STACK {
            assert(stack_protected(segments) == stack_protected(front));
            assert forall|i: int|
                0 <= i < segments.len() && (#[trigger] segments[i]).kind == 0x6474_e551u32 && (
                forall|k: int|
                    i < k < segments.len() ==> (#[trigger] segments[k]).kind != 0x6474_e551u32) implies
                hardening_with(file, segments).nx == (segments[i].flags & 1u32 == 0) by {
                assert(front[i] == segments[i]);
                assert forall|k: int| i < k < front.len() implies (#[trigger] front[k]).kind
                    != 0x6474_e551u32 by {
                    assert(front[k] == segments[k]);
                }
                assert(hardening_with(file, front).nx == (front[i].flags & 1u32 == 0));
            }
            if forall|i: int|
                0 <= i < segments.len() ==> (#[trigger] segments[i]).kind != 0x6474_e551u32 {
                assert forall|i: int| 0 <= i < front.len() implies (#[trigger] front[i]).kind
                    != 0x6474_e551u32 by {
                    assert(front[i] == segments[i]);
                }
                assert(hardening_with(file, front).nx);
            }
        } else {
            assert forall|i: int|
                0 <= i < segments.len() && (#[trigger] segments[i]).kind == 0x6474_e551u32 && (
                forall|k: int|
                    i < k < segments.len() ==> (#[trigger] segments[k]).kind != 0x6474_e551u32) implies
                hardening_with(file, segments).nx == (segments[i].flags & 1u32 == 0) by {
                if i < last {
                    assert(segments[last].kind != 0x6474_e551u32);
                }
            }
        }
    }
}

/// The file's dynamic table asks for all symbols to be bound at start: by an entry for that, or by
/// a bit in an entry that holds flags.
pub open spec fn asks_to_bind(entries: Seq<(u64, u64)>) -> bool {
    exists|i: int|
        0 <= i < entries.len() && ((#[trigger] entries[i]).0 == 24 || (entries[i].0 == 30
            && entries[i].1 & 8u64 != 0))
}

/// There is no protection of relocations without a program header for it; with one, it is full
/// exactly where the dynamic table asks for all symbols to be bound at start.
pub proof fn lemma_relro(file: image::ImageModel, segments: Seq<Segment>)
    ensures
        ({
            let relro = hardening_with(file, segments).relro;
            let covered = exists|i: int|
                0 <= i < segments.len() && (#[trigger] segments[i]).kind == 0x6474_e552u32;
            &&& !covered ==> relro == "none"@
            &&& covered && asks_to_bind(dynamic::file_entries(file)) ==> relro == "full"@
            &&& covered && !asks_to_bind(dynamic::file_entries(file)) ==> relro == "partial"@
        }),
{
    let entries = dynamic::file_entries(file);
    if asks_to_bind(entries) {
        let i = choose|i: int|
            0 <= i < entries.len() && ((#[trigger] entries[i]).0 == 24 || (entries[i].0 == 30
                && entries[i].1 & 8u64 != 0));
        assert(entries[i].0 == 24 || entries[i].0 == 30);
    }
    if binds_now(file) {
        if dynamic::has_tag(entries, dynamic::DT_BIND_NOW) {
            let i = choose|i: int|
                0 <= i < entries.len() && (#[trigger] entries[i]).0 == dynamic::DT_BIND_NOW;
            assert(entries[i].0 == 24);
        } else {
            let i = choose|i: int|
                0 <= i < entries.len() && (#[trigger] entries[i]).0 == dynamic::DT_FLAGS
                    && entries[i].1 & dynamic::DF_BIND_NOW != 0;
            assert(entries[i].0 == 30);
        }
    }
}

/// The property note and the kind of the file decide the other two guards, and the hardening is
/// known exactly for the files whose program headers can be read.
pub proof fn lemma_other_guards(file: image::ImageModel, segments: Seq<Segment>, raw: Seq<u8>)
    ensures
        hardening_with(file, segments).cet <==> file.gnu_property is Some,
        hardening_with(file, segments).pie <==> file.header.is_dynamic,
        file_hardening(file, raw) is Some <==> image::elf64_segments(raw) is Some,
        image::elf64_segments(raw) == Some(segments) ==> file_hardening(file, raw) == Some(
            hardening_with(file, segments),
        ),
{
}

} // verus!
