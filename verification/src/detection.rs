//! The instrumentation that shows in the symbols of a file and in the libraries that it needs.
use vstd::prelude::*;
use vstd::string::StringExecFns;

use crate::image;
use crate::image::ObjectImage;
use crate::order;
use crate::text;

verus! {

#[derive(Debug)]
pub struct Detection {
    pub name: String,
    pub symbols: Vec<String>,
    pub linked_lib: Option<String>,
}

/// The values of a [`Detection`].
pub struct DetectionModel {
    pub name: Seq<char>,
    pub symbols: Seq<Seq<char>>,
    pub linked_lib: Option<Seq<char>>,
}

impl View for Detection {
    type V = DetectionModel;

    open spec fn view(&self) -> DetectionModel {
        DetectionModel {
            name: self.name@,
            symbols: text::texts(self.symbols@),
            linked_lib: image::text_option(self.linked_lib),
        }
    }
}

/// The values of the detections in a list.
pub open spec fn detection_models(list: Seq<Detection>) -> Seq<DetectionModel> {
    list.map_values(|d: Detection| d@)
}

/// How an instrumentation shows: by symbols that start with one of the prefixes, or by a library
/// whose name holds the hint.
struct Signature {
    name: &'static str,
    prefix: &'static str,
    other_prefix: Option<&'static str>,
    lib_hint: Option<&'static str>,
}

/// The values of a signature.
pub struct SignatureModel {
    pub name: Seq<char>,
    pub prefixes: Seq<Seq<char>>,
    pub lib_hint: Option<Seq<char>>,
}

impl View for Signature {
    type V = SignatureModel;

    closed spec fn view(&self) -> SignatureModel {
        SignatureModel {
            name: self.name@,
            prefixes: match self.other_prefix {
                Some(other) => seq![self.prefix@, other@],
                None => seq![self.prefix@],
            },
            lib_hint: match self.lib_hint {
                Some(hint) => Some(hint@),
                None => None,
            },
        }
    }
}

/// The instrumentations that are looked for.
pub open spec fn signature_table() -> Seq<SignatureModel> {
    seq![
        SignatureModel {
            name: "AddressSanitizer"@,
            prefixes: seq!["__asan_"@],
            lib_hint: Some("libasan"@),
        },
        SignatureModel {
            name: "ThreadSanitizer"@,
            prefixes: seq!["__tsan_"@],
            lib_hint: Some("libtsan"@),
        },
        SignatureModel {
            name: "MemorySanitizer"@,
            prefixes: seq!["__msan_"@],
            lib_hint: Some("libmsan"@),
        },
        SignatureModel {
            name: "UBSanitizer"@,
            prefixes: seq!["__ubsan_"@],
            lib_hint: Some("libubsan"@),
        },
        SignatureModel {
            name: "LeakSanitizer"@,
            prefixes: seq!["__lsan_"@],
            lib_hint: Some("liblsan"@),
        },
        SignatureModel {
            name: "SanitizerCoverage"@,
            prefixes: seq!["__sanitizer_cov_"@],
            lib_hint: None,
        },
        SignatureModel {
            name: "libFuzzer"@,
            prefixes: seq!["LLVMFuzzerTestOneInput"@],
            lib_hint: None,
        },
        SignatureModel { name: "AFL"@, prefixes: seq!["__afl_"@], lib_hint: None },
        SignatureModel {
            name: "gcov/profiling"@,
            prefixes: seq!["__gcov_"@, "__llvm_profile_"@],
            lib_hint: None,
        },
    ]
}

fn with_library(name: &'static str, prefix: &'static str, hint: &'static str) -> (r: Signature)
    ensures
        r@ == (SignatureModel { name: name@, prefixes: seq![prefix@], lib_hint: Some(hint@) }),
{
    Signature { name, prefix, other_prefix: None, lib_hint: Some(hint) }
}

fn without_library(name: &'static str, prefix: &'static str) -> (r: Signature)
    ensures
        r@ == (SignatureModel { name: name@, prefixes: seq![prefix@], lib_hint: None }),
{
    Signature { name, prefix, other_prefix: None, lib_hint: None }
}

fn signatures() -> (r: Vec<Signature>)
    ensures
        r@.map_values(|s: Signature| s@) == signature_table(),
{
    let mut table: Vec<Signature> = Vec::new();
    table.push(with_library("AddressSanitizer", "__asan_", "libasan"));
    table.push(with_library("ThreadSanitizer", "__tsan_", "libtsan"));
    table.push(with_library("MemorySanitizer", "__msan_", "libmsan"));
    table.push(with_library("UBSanitizer", "__ubsan_", "libubsan"));
    table.push(with_library("LeakSanitizer", "__lsan_", "liblsan"));
    table.push(without_library("SanitizerCoverage", "__sanitizer_cov_"));
    table.push(without_library("libFuzzer", "LLVMFuzzerTestOneInput"));
    table.push(without_library("AFL", "__afl_"));
    table.push(
        Signature {
            name: "gcov/profiling",
            prefix: "__gcov_",
            other_prefix: Some("__llvm_profile_"),
            lib_hint: None,
        },
    );
    assert(table@.map_values(|s: Signature| s@) =~= signature_table());
    table
}

/// The names in a symbol table that are valid and not empty, in the order of the table.
pub open spec fn symbol_names(symbols: Seq<image::SymbolModel>) -> Seq<Seq<char>>
    decreases symbols.len(),
{
    if symbols.len() == 0 {
        Seq::empty()
    } else {
        let rest = symbol_names(symbols.drop_last());
        match symbols.last().name {
            Some(name) => if name.len() > 0 {
                rest.push(name)
            } else {
                rest
            },
            None => rest,
        }
    }
}

/// Appends the names in a symbol table.
fn push_symbol_names(names: &mut Vec<String>, symbols: &Vec<image::SymbolEntry>)
    ensures
        text::texts(final(names)@) == text::texts(old(names)@) + symbol_names(
            image::symbol_models(symbols@),
        ),
{
    let ghost first = text::texts(names@);
    let ghost all = image::symbol_models(symbols@);
    let mut i: usize = 0;
    assert(text::texts(names@) =~= first + symbol_names(all.take(0)));
    while i < symbols.len()
        invariant
            i <= symbols.len(),
            all == image::symbol_models(symbols@),
            text::texts(names@) == first + symbol_names(all.take(i as int)),
        decreases symbols.len() - i,
    {
        proof {
            assert(all.take(i + 1).drop_last() =~= all.take(i as int));
            assert(all.take(i + 1).last() == symbols@[i as int]@);
        }
        if let Some(name) = &symbols[i].name {
            if !name.as_str().is_empty() {
                let ghost before = names@;
                names.push(name.clone());
                assert(text::texts(names@) =~= text::texts(before).push(name@));
            }
        }
        i = i + 1;
        assert(text::texts(names@) =~= first + symbol_names(all.take(i as int)));
    }
    assert(all.take(i as int) =~= all);
}

/// The symbol starts with one of the prefixes.
pub open spec fn matches_signature(signature: SignatureModel, symbol: Seq<char>) -> bool {
    exists|k: int|
        0 <= k < signature.prefixes.len() && (#[trigger] signature.prefixes[k]).is_prefix_of(symbol)
}

/// The symbols that speak for a signature, each once, in ascending order.
pub open spec fn evidence(signature: SignatureModel, symbols: Seq<Seq<char>>) -> Seq<Seq<char>> {
    order::sorted_distinct(
        symbols.filter(|s: Seq<char>| matches_signature(signature, s)),
        order::rank_lt::<String>(),
    )
}

/// The first library whose name holds the hint.
pub open spec fn first_holding(libs: Seq<Seq<char>>, hint: Seq<char>) -> Option<Seq<char>>
    decreases libs.len(),
{
    if libs.len() == 0 {
        None
    } else if text::contains_text(libs[0], hint) {
        Some(libs[0])
    } else {
        first_holding(libs.drop_first(), hint)
    }
}

/// The library that speaks for a signature.
pub open spec fn linked(signature: SignatureModel, libs: Seq<Seq<char>>) -> Option<Seq<char>> {
    match signature.lib_hint {
        Some(hint) => first_holding(libs, hint),
        None => None,
    }
}

/// How many symbols a detection shows at most.
pub const MAX_EVIDENCE: usize = 5;

/// What is reported for a signature: nothing where neither a symbol nor a library speaks for it.
pub open spec fn detected(
    signature: SignatureModel,
    symbols: Seq<Seq<char>>,
    libs: Seq<Seq<char>>,
) -> Option<DetectionModel> {
    let hits = evidence(signature, symbols);
    let lib = linked(signature, libs);
    if hits.len() == 0 && lib is None {
        None
    } else {
        Some(
            DetectionModel {
                name: signature.name,
                symbols: if hits.len() > MAX_EVIDENCE {
                    hits.take(MAX_EVIDENCE as int)
                } else {
                    hits
                },
                linked_lib: lib,
            },
        )
    }
}

/// What is reported for a list of signatures, in the order of the list.
pub open spec fn detections(
    table: Seq<SignatureModel>,
    symbols: Seq<Seq<char>>,
    libs: Seq<Seq<char>>,
) -> Seq<DetectionModel>
    decreases table.len(),
{
    if table.len() == 0 {
        Seq::empty()
    } else {
        let rest = detections(table.drop_last(), symbols, libs);
        match detected(table.last(), symbols, libs) {
            Some(d) => rest.push(d),
            None => rest,
        }
    }
}

/// All symbol names of a file.
pub open spec fn file_symbol_names(file: image::ImageModel) -> Seq<Seq<char>> {
    symbol_names(file.symbols) + symbol_names(file.dynamic_symbols)
}

fn signature_matches(signature: &Signature, symbol: &str) -> (r: bool)
    ensures
        r == matches_signature(signature@, symbol@),
{
    assert(signature@.prefixes[0] == signature.prefix@);
    if text::starts_with(symbol, signature.prefix) {
        return true;
    }
    match signature.other_prefix {
        Some(other) => {
            assert(signature@.prefixes[1] == other@);
            text::starts_with(symbol, other)
        },
        None => false,
    }
}

/// The symbols that speak for a signature.
fn collect_evidence(signature: &Signature, symbols: &Vec<String>) -> (r: Vec<String>)
    ensures
        text::texts(r@) == evidence(signature@, text::texts(symbols@)),
{
    let mut hits: Vec<String> = Vec::new();
    let ghost all = text::texts(symbols@);
    let ghost pred = |s: Seq<char>| matches_signature(signature@, s);
    let mut i: usize = 0;
    assert(text::texts(hits@) =~= all.take(0).filter(pred)) by {
        reveal(Seq::filter);
    }
    while i < symbols.len()
        invariant
            i <= symbols.len(),
            all == text::texts(symbols@),
            pred == (|s: Seq<char>| matches_signature(signature@, s)),
            text::texts(hits@) == all.take(i as int).filter(pred),
        decreases symbols.len() - i,
    {
        proof {
            reveal(Seq::filter);
            assert(all.take(i + 1).drop_last() =~= all.take(i as int));
            assert(all.take(i + 1).last() == symbols@[i as int]@);
        }
        if signature_matches(signature, symbols[i].as_str()) {
            let ghost before = hits@;
            hits.push(symbols[i].clone());
            assert(text::texts(hits@) =~= text::texts(before).push(symbols@[i as int]@));
        }
        i = i + 1;
    }
    assert(all.take(i as int) =~= all);
    order::sorted_texts(&hits)
}

/// The library that speaks for a signature.
fn find_linked(signature: &Signature, libs: &[String]) -> (r: Option<String>)
    ensures
        image::text_option(r) == linked(signature@, text::texts(libs@)),
{
    let hint = match signature.lib_hint {
        Some(hint) => hint,
        None => {
            return None;
        },
    };
    let ghost all = text::texts(libs@);
    let mut i: usize = 0;
    assert(all.skip(0) =~= all);
    while i < libs.len()
        invariant
            i <= libs@.len(),
            all == text::texts(libs@),
            first_holding(all, hint@) == first_holding(all.skip(i as int), hint@),
            linked(signature@, all) == first_holding(all, hint@),
        decreases libs@.len() - i,
    {
        assert(all.skip(i as int)[0] == libs@[i as int]@);
        if text::contains(libs[i].as_str(), hint) {
            return Some(libs[i].clone());
        }
        assert(all.skip(i as int).drop_first() =~= all.skip(i + 1));
        i = i + 1;
    }
    None
}

/// The instrumentations that show in the symbols of a file or in the libraries that it needs.
pub fn detect_instrumentation(file: &ObjectImage, needed_libs: &[String]) -> (r: Vec<Detection>)
    ensures
        detection_models(r@) == detections(
            signature_table(),
            file_symbol_names(file@),
            text::texts(needed_libs@),
        ),
{
    let mut all_symbols: Vec<String> = Vec::new();
    push_symbol_names(&mut all_symbols, &file.symbols);
    push_symbol_names(&mut all_symbols, &file.dynamic_symbols);
    let ghost names = file_symbol_names(file@);
    assert(text::texts(all_symbols@) =~= names);
    let table = signatures();
    let ghost models = signature_table();
    let ghost libs = text::texts(needed_libs@);
    let mut found: Vec<Detection> = Vec::new();
    let mut i: usize = 0;
    assert(detection_models(found@) =~= detections(models.take(0), names, libs));
    while i < table.len()
        invariant
            i <= table.len(),
            models == table@.map_values(|s: Signature| s@),
            text::texts(all_symbols@) == names,
            libs == text::texts(needed_libs@),
            detection_models(found@) == detections(models.take(i as int), names, libs),
        decreases table.len() - i,
    {
        let signature = &table[i];
        proof {
            assert(models.take(i + 1).drop_last() =~= models.take(i as int));
            assert(models.take(i + 1).last() == signature@);
        }
        let mut hits = collect_evidence(signature, &all_symbols);
        let ghost whole = text::texts(hits@);
        let linked_lib = find_linked(signature, needed_libs);
        if !hits.is_empty() || linked_lib.is_some() {
            hits.truncate(MAX_EVIDENCE);
            assert(text::texts(hits@) =~= if whole.len() > MAX_EVIDENCE {
                whole.take(MAX_EVIDENCE as int)
            } else {
                whole
            });
            let detection = Detection {
                name: signature.name.to_owned(),
                symbols: hits,
                linked_lib,
            };
            let ghost before = found@;
            let ghost model = detection@;
            found.push(detection);
            assert(detection_models(found@) =~= detection_models(before).push(model));
        }
        i = i + 1;
    }
    assert(models.take(i as int) =~= models);
    found
}

/// Every detection has something that speaks for it, shows a few symbols at most, and each of these
/// is a symbol of the file that starts with a prefix of the signature.
pub proof fn lemma_detected(
    signature: SignatureModel,
    symbols: Seq<Seq<char>>,
    libs: Seq<Seq<char>>,
)
    ensures
        match detected(signature, symbols, libs) {
            Some(d) => {
                &&& d.name == signature.name
                &&& d.symbols.len() > 0 || d.linked_lib is Some
                &&& d.symbols.len() <= MAX_EVIDENCE
                &&& forall|i: int|
                    0 <= i < d.symbols.len() ==> symbols.contains(#[trigger] d.symbols[i])
                        && matches_signature(signature, d.symbols[i])
            },
            None => forall|i: int|
                0 <= i < symbols.len() ==> !matches_signature(signature, #[trigger] symbols[i]),
        },
{
    let pred = |s: Seq<char>| matches_signature(signature, s);
    let picked = symbols.filter(pred);
    let hits = evidence(signature, symbols);
    <String as order::Ranked>::lemma_strict();
    order::lemma_sorted_distinct(picked, order::rank_lt::<String>());
    match detected(signature, symbols, libs) {
        Some(d) => {
            assert forall|i: int| 0 <= i < d.symbols.len() implies symbols.contains(
                #[trigger] d.symbols[i],
            ) && matches_signature(signature, d.symbols[i]) by {
                assert(d.symbols[i] == hits[i]);
                assert(hits.to_set().contains(hits[i]));
                assert(picked.contains(hits[i]));
                lemma_filtered(symbols, pred, hits[i]);
            }
        },
        None => {
            assert forall|i: int| 0 <= i < symbols.len() implies !matches_signature(
                signature,
                #[trigger] symbols[i],
            ) by {
                if pred(symbols[i]) {
                    assert(symbols.contains(symbols[i]));
                    lemma_filtered(symbols, pred, symbols[i]);
                    assert(picked.to_set().contains(symbols[i]));
                    assert(hits.to_set().contains(symbols[i]));
                }
            }
        },
    }
}

proof fn lemma_filtered(s: Seq<Seq<char>>, pred: spec_fn(Seq<char>) -> bool, x: Seq<char>)
    ensures
        s.filter(pred).contains(x) <==> s.contains(x) && pred(x),
    decreases s.len(),
{
    reveal(Seq::filter);
    if s.len() > 0 {
        let front = s.drop_last();
        let rest = front.filter(pred);
        lemma_filtered(front, pred, x);
        if s.contains(x) && x != s.last() {
            let i = choose|i: int| 0 <= i < s.len() && s[i] == x;
            assert(front[i] == x);
        }
        if front.contains(x) {
            let i = choose|i: int| 0 <= i < front.len() && front[i] == x;
            assert(s[i] == x);
        }
        assert(s[s.len() - 1] == s.last());
        if pred(s.last()) {
            let all = rest.push(s.last());
            assert(s.filter(pred) == all);
            assert(all[rest.len() as int] == s.last());
            if rest.contains(x) {
                let i = choose|i: int| 0 <= i < rest.len() && rest[i] == x;
                assert(all[i] == x);
            }
            if all.contains(x) && x != s.last() {
                let i = choose|i: int| 0 <= i < all.len() && all[i] == x;
                assert(rest[i] == x);
            }
        } else {
            assert(s.filter(pred) == rest);
        }
    } else {
        assert(s.filter(pred) =~= Seq::empty());
    }
}

/// Some of the texts starts with the prefix.
pub open spec fn some_starts(texts: Seq<Seq<char>>, prefix: Seq<char>) -> bool {
    exists|i: int| 0 <= i < texts.len() && prefix.is_prefix_of(#[trigger] texts[i])
}

/// The hint stands somewhere in one of the texts.
pub open spec fn some_holds(texts: Seq<Seq<char>>, hint: Seq<char>) -> bool {
    exists|i: int, k: int| 0 <= i < texts.len() && #[trigger] text::stands_at(texts[i], hint, k)
}

/// A detection of this name is in the list.
pub open spec fn shows(list: Seq<DetectionModel>, name: Seq<char>) -> bool {
    exists|i: int| 0 <= i < list.len() && (#[trigger] list[i]).name == name
}

proof fn lemma_first_holding(libs: Seq<Seq<char>>, hint: Seq<char>)
    ensures
        match first_holding(libs, hint) {
            Some(lib) => exists|i: int|
                {
                    &&& 0 <= i < libs.len()
                    &&& #[trigger] libs[i] == lib
                    &&& text::contains_text(lib, hint)
                    &&& forall|j: int|
                        0 <= j < i ==> !text::contains_text(#[trigger] libs[j], hint)
                },
            None => forall|i: int|
                0 <= i < libs.len() ==> !text::contains_text(#[trigger] libs[i], hint),
        },
    decreases libs.len(),
{
    if libs.len() > 0 && !text::contains_text(libs[0], hint) {
        let rest = libs.drop_first();
        lemma_first_holding(rest, hint);
        match first_holding(libs, hint) {
            Some(lib) => {
                let i = choose|i: int|
                    {
                        &&& 0 <= i < rest.len()
                        &&& #[trigger] rest[i] == lib
                        &&& text::contains_text(lib, hint)
                        &&& forall|j: int|
                            0 <= j < i ==> !text::contains_text(#[trigger] rest[j], hint)
                    };
                assert(libs[i + 1] == lib);
                assert forall|j: int| 0 <= j < i + 1 implies !text::contains_text(
                    #[trigger] libs[j],
                    hint,
                ) by {
                    if j > 0 {
                        assert(rest[j - 1] == libs[j]);
                    }
                }
            },
            None => {
                assert forall|i: int| 0 <= i < libs.len() implies !text::contains_text(
                    #[trigger] libs[i],
                    hint,
                ) by {
                    if i > 0 {
                        assert(rest[i - 1] == libs[i]);
                    }
                }
            },
        }
    } else if libs.len() > 0 {
        assert(libs[0] == first_holding(libs, hint)->0);
    }
}

proof fn lemma_some_holds(libs: Seq<Seq<char>>, hint: Seq<char>)
    ensures
        first_holding(libs, hint) is Some <==> some_holds(libs, hint),
{
    lemma_first_holding(libs, hint);
    if first_holding(libs, hint) is Some {
        let i = choose|i: int|
            0 <= i < libs.len() && text::contains_text(#[trigger] libs[i], hint);
        text::lemma_found_first(libs[i], hint);
        let k = choose|k: int| text::stands_at(libs[i], hint, k);
        assert(text::stands_at(libs[i], hint, k));
    }
    if some_holds(libs, hint) {
        let (i, k) = choose|i: int, k: int|
            0 <= i < libs.len() && #[trigger] text::stands_at(libs[i], hint, k);
        text::lemma_found_first(libs[i], hint);
        assert(text::contains_text(libs[i], hint));
    }
}

/// The library that is named for a signature is the first one of those needed that holds the hint;
/// without a hint, or where none holds it, none is named.
pub proof fn lemma_linked(signature: SignatureModel, libs: Seq<Seq<char>>)
    ensures
        signature.lib_hint is None ==> linked(signature, libs) is None,
        signature.lib_hint is Some ==> (linked(signature, libs) is Some <==> some_holds(
            libs,
            signature.lib_hint->0,
        )),
        forall|i: int, k: int|
            0 <= i < libs.len() && signature.lib_hint is Some && #[trigger] text::stands_at(
                libs[i],
                signature.lib_hint->0,
                k,
            ) && !some_holds(libs.take(i), signature.lib_hint->0) ==> linked(signature, libs)
                == Some(libs[i]),
{
    if signature.lib_hint is Some {
        let hint = signature.lib_hint->0;
        lemma_some_holds(libs, hint);
        lemma_first_holding(libs, hint);
        assert forall|i: int, k: int|
            0 <= i < libs.len() && #[trigger] text::stands_at(libs[i], hint, k) && !some_holds(
                libs.take(i),
                hint,
            ) implies linked(signature, libs) == Some(libs[i]) by {
            text::lemma_found_first(libs[i], hint);
            let lib = first_holding(libs, hint)->0;
            let m = choose|m: int|
                {
                    &&& 0 <= m < libs.len()
                    &&& #[trigger] libs[m] == lib
                    &&& text::contains_text(lib, hint)
                    &&& forall|j: int|
                        0 <= j < m ==> !text::contains_text(#[trigger] libs[j], hint)
                };
            if m < i {
                text::lemma_found_first(libs[m], hint);
                let at = choose|at: int| text::stands_at(libs[m], hint, at);
                assert(libs.take(i)[m] == libs[m]);
                assert(text::stands_at(libs.take(i)[m], hint, at));
            }
        }
    }
}

proof fn lemma_evidence_some(signature: SignatureModel, symbols: Seq<Seq<char>>)
    ensures
        evidence(signature, symbols).len() > 0 <==> exists|i: int|
            0 <= i < symbols.len() && matches_signature(signature, #[trigger] symbols[i]),
{
    let pred = |s: Seq<char>| matches_signature(signature, s);
    let picked = symbols.filter(pred);
    let shown = evidence(signature, symbols);
    <String as order::Ranked>::lemma_strict();
    order::lemma_sorted_distinct(picked, order::rank_lt::<String>());
    if shown.len() > 0 {
        assert(shown.to_set().contains(shown[0]));
        assert(picked.contains(shown[0]));
        lemma_filtered(symbols, pred, shown[0]);
        let i = choose|i: int| 0 <= i < symbols.len() && symbols[i] == shown[0];
        assert(matches_signature(signature, symbols[i]));
    }
    if exists|i: int| 0 <= i < symbols.len() && matches_signature(signature, #[trigger] symbols[i]) {
        let i = choose|i: int|
            0 <= i < symbols.len() && matches_signature(signature, #[trigger] symbols[i]);
        assert(symbols.contains(symbols[i]));
        lemma_filtered(symbols, pred, symbols[i]);
        assert(picked.to_set().contains(symbols[i]));
        assert(shown.to_set().contains(symbols[i]));
    }
}

proof fn lemma_detections(
    table: Seq<SignatureModel>,
    symbols: Seq<Seq<char>>,
    libs: Seq<Seq<char>>,
    d: DetectionModel,
)
    ensures
        detections(table, symbols, libs).contains(d) <==> exists|k: int|
            0 <= k < table.len() && detected(#[trigger] table[k], symbols, libs) == Some(d),
    decreases table.len(),
{
    if table.len() > 0 {
        let front = table.drop_last();
        let last = table.len() - 1;
        let rest = detections(front, symbols, libs);
        let all = detections(table, symbols, libs);
        lemma_detections(front, symbols, libs, d);
        assert(table[last] == table.last());
        if rest.contains(d) {
            let i = choose|i: int| 0 <= i < rest.len() && rest[i] == d;
            assert(all[i] == d);
            let k = choose|k: int|
                0 <= k < front.len() && detected(#[trigger] front[k], symbols, libs) == Some(d);
            assert(table[k] == front[k]);
        }
        if all.contains(d) && !rest.contains(d) {
            let i = choose|i: int| 0 <= i < all.len() && all[i] == d;
            if i < rest.len() {
                assert(rest[i] == d);
            }
        }
        if exists|k: int|
            0 <= k < table.len() && detected(#[trigger] table[k], symbols, libs) == Some(d) {
            let k = choose|k: int|
                0 <= k < table.len() && detected(#[trigger] table[k], symbols, libs) == Some(d);
            if k < last {
                assert(front[k] == table[k]);
            } else {
                assert(all[rest.len() as int] == d);
            }
        }
    } else {
        assert(detections(table, symbols, libs) =~= Seq::empty());
    }
}

/// What is reported are the detections of the signatures in the table, and nothing else.
pub proof fn lemma_reported(
    table: Seq<SignatureModel>,
    symbols: Seq<Seq<char>>,
    libs: Seq<Seq<char>>,
    name: Seq<char>,
)
    ensures
        shows(detections(table, symbols, libs), name) <==> exists|k: int|
            {
                &&& 0 <= k < table.len()
                &&& (#[trigger] table[k]).name == name
                &&& (exists|p: int|
                    0 <= p < table[k].prefixes.len() && some_starts(
                        symbols,
                        #[trigger] table[k].prefixes[p],
                    )) || (table[k].lib_hint is Some && some_holds(libs, table[k].lib_hint->0))
            },
{
    let found = detections(table, symbols, libs);
    if shows(found, name) {
        let i = choose|i: int| 0 <= i < found.len() && (#[trigger] found[i]).name == name;
        assert(found.contains(found[i]));
        lemma_detections(table, symbols, libs, found[i]);
        let k = choose|k: int|
            0 <= k < table.len() && detected(#[trigger] table[k], symbols, libs) == Some(found[i]);
        lemma_speaks_for(table[k], symbols, libs);
        assert(table[k].name == name);
    }
    if exists|k: int|
        {
            &&& 0 <= k < table.len()
            &&& (#[trigger] table[k]).name == name
            &&& (exists|p: int|
                0 <= p < table[k].prefixes.len() && some_starts(
                    symbols,
                    #[trigger] table[k].prefixes[p],
                )) || (table[k].lib_hint is Some && some_holds(libs, table[k].lib_hint->0))
        } {
        let k = choose|k: int|
            {
                &&& 0 <= k < table.len()
                &&& (#[trigger] table[k]).name == name
                &&& (exists|p: int|
                    0 <= p < table[k].prefixes.len() && some_starts(
                        symbols,
                        #[trigger] table[k].prefixes[p],
                    )) || (table[k].lib_hint is Some && some_holds(libs, table[k].lib_hint->0))
            };
        lemma_speaks_for(table[k], symbols, libs);
        let d = detected(table[k], symbols, libs)->0;
        assert(detected(table[k], symbols, libs) == Some(d));
        lemma_detections(table, symbols, libs, d);
        let i = choose|i: int| 0 <= i < found.len() && found[i] == d;
        assert(found[i].name == name);
    }
}

proof fn lemma_speaks_for(
    signature: SignatureModel,
    symbols: Seq<Seq<char>>,
    libs: Seq<Seq<char>>,
)
    ensures
        detected(signature, symbols, libs) is Some <==> (exists|p: int|
            0 <= p < signature.prefixes.len() && some_starts(
                symbols,
                #[trigger] signature.prefixes[p],
            )) || (signature.lib_hint is Some && some_holds(libs, signature.lib_hint->0)),
{
    lemma_evidence_some(signature, symbols);
    if signature.lib_hint is Some {
        lemma_some_holds(libs, signature.lib_hint->0);
    }
    if exists|i: int| 0 <= i < symbols.len() && matches_signature(signature, #[trigger] symbols[i]) {
        let i = choose|i: int|
            0 <= i < symbols.len() && matches_signature(signature, #[trigger] symbols[i]);
        let p = choose|p: int|
            0 <= p < signature.prefixes.len() && (#[trigger] signature.prefixes[p]).is_prefix_of(
                symbols[i],
            );
        assert(some_starts(symbols, signature.prefixes[p]));
    }
    if exists|p: int|
        0 <= p < signature.prefixes.len() && some_starts(symbols, #[trigger] signature.prefixes[p]) {
        let p = choose|p: int|
            0 <= p < signature.prefixes.len() && some_starts(
                symbols,
                #[trigger] signature.prefixes[p],
            );
        let i = choose|i: int|
            0 <= i < symbols.len() && signature.prefixes[p].is_prefix_of(#[trigger] symbols[i]);
        assert(matches_signature(signature, symbols[i]));
    }
}

proof fn lemma_signature_shown(k: int, symbols: Seq<Seq<char>>, libs: Seq<Seq<char>>)
    requires
        0 <= k < 9,
    ensures
        ({
            let signature = signature_table()[k];
            shows(detections(signature_table(), symbols, libs), signature.name) <==> (exists|p: int|
                0 <= p < signature.prefixes.len() && some_starts(
                    symbols,
                    #[trigger] signature.prefixes[p],
                )) || (signature.lib_hint is Some && some_holds(libs, signature.lib_hint->0))
        }),
{
    let table = signature_table();
    reveal_strlit("AddressSanitizer");
    reveal_strlit("ThreadSanitizer");
    reveal_strlit("MemorySanitizer");
    reveal_strlit("UBSanitizer");
    reveal_strlit("LeakSanitizer");
    reveal_strlit("SanitizerCoverage");
    reveal_strlit("libFuzzer");
    reveal_strlit("AFL");
    reveal_strlit("gcov/profiling");
    assert(table[0].name.len() == 16);
    assert(table[1].name.len() == 15);
    assert(table[2].name.len() == 15);
    assert(table[3].name.len() == 11);
    assert(table[4].name.len() == 13);
    assert(table[5].name.len() == 17);
    assert(table[6].name.len() == 9);
    assert(table[7].name.len() == 3);
    assert(table[8].name.len() == 14);
    assert(table[1].name[0] == 'T');
    assert(table[2].name[0] == 'M');
    lemma_reported(table, symbols, libs, table[k].name);
    assert forall|j: int| 0 <= j < 9 && (#[trigger] table[j]).name == table[k].name implies j
        == k by {}
}

/// Each instrumentation is reported exactly where a symbol starts as those that it puts in do, or,
/// where it has a library, the name of a library that is needed holds that library's.
pub proof fn lemma_instrumentations(symbols: Seq<Seq<char>>, libs: Seq<Seq<char>>)
    ensures
        ({
            let found = detections(signature_table(), symbols, libs);
            &&& shows(found, "AddressSanitizer"@) <==> some_starts(symbols, "__asan_"@) || some_holds(
                libs,
                "libasan"@,
            )
            &&& shows(found, "ThreadSanitizer"@) <==> some_starts(symbols, "__tsan_"@) || some_holds(
                libs,
                "libtsan"@,
            )
            &&& shows(found, "MemorySanitizer"@) <==> some_starts(symbols, "__msan_"@) || some_holds(
                libs,
                "libmsan"@,
            )
            &&& shows(found, "UBSanitizer"@) <==> some_starts(symbols, "__ubsan_"@) || some_holds(
                libs,
                "libubsan"@,
            )
            &&& shows(found, "LeakSanitizer"@) <==> some_starts(symbols, "__lsan_"@) || some_holds(
                libs,
                "liblsan"@,
            )
            &&& shows(found, "SanitizerCoverage"@) <==> some_starts(symbols, "__sanitizer_cov_"@)
            &&& shows(found, "libFuzzer"@) <==> some_starts(symbols, "LLVMFuzzerTestOneInput"@)
            &&& shows(found, "AFL"@) <==> some_starts(symbols, "__afl_"@)
            &&& shows(found, "gcov/profiling"@) <==> some_starts(symbols, "__gcov_"@) || some_starts(symbols, "__llvm_profile_"@)
        }),
{
    let table = signature_table();
    lemma_signature_shown(0, symbols, libs);
    lemma_signature_shown(1, symbols, libs);
    lemma_signature_shown(2, symbols, libs);
    lemma_signature_shown(3, symbols, libs);
    lemma_signature_shown(4, symbols, libs);
    lemma_signature_shown(5, symbols, libs);
    lemma_signature_shown(6, symbols, libs);
    lemma_signature_shown(7, symbols, libs);
    lemma_signature_shown(8, symbols, libs);
    assert(table[0].prefixes[0] == "__asan_"@);
    assert(table[1].prefixes[0] == "__tsan_"@);
    assert(table[2].prefixes[0] == "__msan_"@);
    assert(table[3].prefixes[0] == "__ubsan_"@);
    assert(table[4].prefixes[0] == "__lsan_"@);
    assert(table[5].prefixes[0] == "__sanitizer_cov_"@);
    assert(table[6].prefixes[0] == "LLVMFuzzerTestOneInput"@);
    assert(table[7].prefixes[0] == "__afl_"@);
    assert(table[8].prefixes[0] == "__gcov_"@);
    assert(table[8].prefixes[1] == "__llvm_profile_"@);
}

/// The symbols that are shown for a signature start with one of its prefixes, are listed from the
/// least on, each once, and are no more than five; a symbol that starts so is left out only where
/// there are five that come before it.
pub proof fn lemma_evidence(
    signature: SignatureModel,
    symbols: Seq<Seq<char>>,
    libs: Seq<Seq<char>>,
    symbol: Seq<char>,
)
    requires
        detected(signature, symbols, libs) is Some,
    ensures
        ({
            let shown = detected(signature, symbols, libs)->0.symbols;
            let speaks = symbols.contains(symbol) && exists|p: int|
                0 <= p < signature.prefixes.len() && (#[trigger] signature.prefixes[p]).is_prefix_of(
                    symbol,
                );
            &&& detected(signature, symbols, libs)->0.name == signature.name
            &&& detected(signature, symbols, libs)->0.linked_lib == linked(signature, libs)
            &&& shown.len() <= 5
            &&& order::ascending(shown, order::rank_lt::<String>())
            &&& shown.contains(symbol) ==> speaks
            &&& speaks && !shown.contains(symbol) ==> shown.len() == 5 && forall|i: int|
                0 <= i < 5 ==> order::rank_lt::<String>()(#[trigger] shown[i], symbol)
        }),
{
    let pred = |s: Seq<char>| matches_signature(signature, s);
    let picked = symbols.filter(pred);
    let all = evidence(signature, symbols);
    let shown = detected(signature, symbols, libs)->0.symbols;
    let lt = order::rank_lt::<String>();
    <String as order::Ranked>::lemma_strict();
    order::lemma_sorted_distinct(picked, lt);
    lemma_filtered(symbols, pred, symbol);
    assert(all.to_set().contains(symbol) == picked.to_set().contains(symbol));
    assert forall|i: int, j: int| 0 <= i < j < shown.len() implies lt(
        #[trigger] shown[i],
        #[trigger] shown[j],
    ) by {
        assert(lt(all[i], all[j]));
    }
    if shown.contains(symbol) {
        let i = choose|i: int| 0 <= i < shown.len() && shown[i] == symbol;
        assert(all[i] == symbol);
        assert(pred(symbol));
    }
    if symbols.contains(symbol) && pred(symbol) && !shown.contains(symbol) {
        let m = choose|m: int| 0 <= m < all.len() && all[m] == symbol;
        if m < shown.len() {
            assert(shown[m] == symbol);
        }
        assert forall|i: int| 0 <= i < 5 implies lt(#[trigger] shown[i], symbol) by {
            assert(lt(all[i], all[m]));
        }
    }
}

/// The names that are looked through are those of the symbols of both tables, the static one's
/// before the dynamic one's, without those that are empty or cannot be read.
pub proof fn lemma_names_of_file(file: image::ImageModel)
    ensures
        file_symbol_names(file) == (file.symbols + file.dynamic_symbols).filter(
            |s: image::SymbolModel| s.name is Some && s.name->0.len() > 0,
        ).map_values(|s: image::SymbolModel| s.name->0),
{
    let named = |s: image::SymbolModel| s.name is Some && s.name->0.len() > 0;
    let name = |s: image::SymbolModel| s.name->0;
    lemma_symbol_names(file.symbols);
    lemma_symbol_names(file.dynamic_symbols);
    Seq::filter_distributes_over_add(file.symbols, file.dynamic_symbols, named);
    assert(file_symbol_names(file) =~= (file.symbols + file.dynamic_symbols).filter(
        named,
    ).map_values(name));
}

proof fn lemma_symbol_names(symbols: Seq<image::SymbolModel>)
    ensures
        symbol_names(symbols) == symbols.filter(
            |s: image::SymbolModel| s.name is Some && s.name->0.len() > 0,
        ).map_values(|s: image::SymbolModel| s.name->0),
    decreases symbols.len(),
{
    let named = |s: image::SymbolModel| s.name is Some && s.name->0.len() > 0;
    let name = |s: image::SymbolModel| s.name->0;
    reveal(Seq::filter);
    if symbols.len() > 0 {
        let front = symbols.drop_last();
        lemma_symbol_names(front);
        if named(symbols.last()) {
            assert(symbols.filter(named).map_values(name) =~= front.filter(named).map_values(
                name,
            ).push(name(symbols.last())));
        }
    } else {
        assert(symbols.filter(named).map_values(name) =~= Seq::empty());
    }
}

} // verus!
