//! The functions of a binary, and what stands at the addresses that they call.
use std::collections::HashMap;
use vstd::prelude::*;
use vstd::string::StringExecFns;

use crate::callgraph::NodeKind;
use crate::decode;
use crate::decode::Line;
use crate::decode::Mnemonic;
use crate::decode::OpKind;
use crate::image;
use crate::image::ObjectImage;
use crate::image::RelocationEntry;
use crate::order;
use crate::tables;
use crate::text;

verus! {

broadcast use vstd::std_specs::hash::group_hash_axioms;

#[derive(Debug)]
pub struct Function {
    pub name: String,
    pub address: u64,
    pub size: u64,
    pub instructions: u32,
    pub calls_out: u32,
    pub exported: bool,
}

/// The values of a [`Function`].
pub struct FunctionModel {
    pub name: Seq<char>,
    pub address: u64,
    pub size: u64,
    pub instructions: u32,
    pub calls_out: u32,
    pub exported: bool,
}

impl View for Function {
    type V = FunctionModel;

    open spec fn view(&self) -> FunctionModel {
        FunctionModel {
            name: self.name@,
            address: self.address,
            size: self.size,
            instructions: self.instructions,
            calls_out: self.calls_out,
            exported: self.exported,
        }
    }
}

/// The values of the functions in a list.
pub open spec fn function_models(list: Seq<Function>) -> Seq<FunctionModel> {
    list.map_values(|f: Function| f@)
}

impl Function {
    /// A copy.
    pub fn duplicate(&self) -> (r: Function)
        ensures
            r@ == self@,
    {
        Function {
            name: self.name.clone(),
            address: self.address,
            size: self.size,
            instructions: self.instructions,
            calls_out: self.calls_out,
            exported: self.exported,
        }
    }
}

/// The symbol stands for code at a known address.
pub open spec fn is_function_symbol(symbol: image::SymbolModel) -> bool {
    symbol.is_text && symbol.address != 0
}

/// The function that a symbol stands for, before its code has been looked at.
pub open spec fn symbol_function(symbol: image::SymbolModel) -> FunctionModel {
    FunctionModel {
        name: match symbol.name {
            Some(name) => name,
            None => "<unknown>"@,
        },
        address: symbol.address,
        size: symbol.size,
        instructions: 0,
        calls_out: 0,
        exported: symbol.exported,
    }
}

/// The functions in a symbol table, in the order of the table.
pub open spec fn symbol_functions(symbols: Seq<image::SymbolModel>) -> Seq<FunctionModel> {
    symbols.filter(|s: image::SymbolModel| is_function_symbol(s)).map_values(
        |s: image::SymbolModel| symbol_function(s),
    )
}

/// The functions by their addresses; those at one address in the order in which they came.
pub open spec fn by_address(functions: Seq<FunctionModel>) -> Seq<FunctionModel> {
    order::stable_sort(functions, |f: FunctionModel| f.address, order::rank_lt::<u64>())
}

/// The functions in the symbol table of a file, by their addresses.
pub fn load_functions(file: &ObjectImage) -> (r: Vec<Function>)
    ensures
        function_models(r@) == by_address(symbol_functions(file@.symbols)),
{
    let mut picked: Vec<Function> = Vec::new();
    let mut keys: Vec<u64> = Vec::new();
    let mut i: usize = 0;
    let ghost all = file@.symbols;
    let ghost pred = |s: image::SymbolModel| is_function_symbol(s);
    assert(all.take(0) =~= Seq::empty());
    assert(function_models(picked@) =~= symbol_functions(all.take(0))) by {
        reveal(Seq::filter);
    }
    while i < file.symbols.len()
        invariant
            i <= file.symbols.len(),
            all == image::symbol_models(file.symbols@),
            pred == (|s: image::SymbolModel| is_function_symbol(s)),
            function_models(picked@) == symbol_functions(all.take(i as int)),
            keys@ == function_models(picked@).map_values(|f: FunctionModel| f.address),
        decreases file.symbols.len() - i,
    {
        let symbol = &file.symbols[i];
        let ghost before = picked@;
        proof {
            reveal(Seq::filter);
            assert(all.take(i + 1).drop_last() =~= all.take(i as int));
            assert(all.take(i + 1).last() == symbol@);
        }
        if symbol.is_text && symbol.address != 0 {
            let name = match &symbol.name {
                Some(name) => name.clone(),
                None => "<unknown>".to_owned(),
            };
            let function = Function {
                name,
                address: symbol.address,
                size: symbol.size,
                instructions: 0,
                calls_out: 0,
                exported: symbol.exported,
            };
            keys.push(function.address);
            picked.push(function);
            assert(function_models(picked@) =~= function_models(before).push(
                symbol_function(symbol@),
            ));
            assert(all.take(i + 1).filter(pred) =~= all.take(i as int).filter(pred).push(symbol@));
        }
        i = i + 1;
        assert(function_models(picked@) =~= symbol_functions(all.take(i as int)));
        assert(keys@ =~= function_models(picked@).map_values(|f: FunctionModel| f.address));
    }
    assert(all.take(i as int) =~= all);
    let order = order::order_by_rank(&keys);
    assert(order::ranks(keys@) =~= function_models(picked@).map_values(
        |f: FunctionModel| f.address,
    ));
    reordered(picked.as_slice(), &order)
}

/// The functions at the given positions.
pub(crate) fn reordered(functions: &[Function], order: &Vec<usize>) -> (r: Vec<Function>)
    requires
        forall|k: int| 0 <= k < order.len() ==> #[trigger] order[k] < functions@.len(),
    ensures
        function_models(r@) == order@.map_values(
            |k: usize| function_models(functions@)[k as int],
        ),
{
    let mut out: Vec<Function> = Vec::new();
    let mut j: usize = 0;
    let ghost pick = |k: usize| function_models(functions@)[k as int];
    assert(function_models(out@) =~= order@.take(0).map_values(pick));
    while j < order.len()
        invariant
            j <= order.len(),
            forall|k: int| 0 <= k < order.len() ==> #[trigger] order[k] < functions@.len(),
            pick == (|k: usize| function_models(functions@)[k as int]),
            function_models(out@) == order@.take(j as int).map_values(pick),
        decreases order.len() - j,
    {
        let ghost before = out@;
        let f = functions[order[j]].duplicate();
        let ghost model = f@;
        out.push(f);
        assert(function_models(out@) =~= function_models(before).push(model));
        assert(order@.take(j + 1) =~= order@.take(j as int).push(order@[j as int]));
        j = j + 1;
        assert(function_models(out@) =~= order@.take(j as int).map_values(pick));
    }
    assert(order@.take(j as int) =~= order@);
    out
}

/// The name of the function at each address; of two at one address the last one's.
pub open spec fn name_index(functions: Seq<FunctionModel>) -> Map<u64, Seq<char>>
    decreases functions.len(),
{
    if functions.len() == 0 {
        Map::empty()
    } else {
        name_index(functions.drop_last()).insert(functions.last().address, functions.last().name)
    }
}

pub fn index_by_address(functions: &[Function]) -> (r: HashMap<u64, String>)
    ensures
        text::text_map(r@) == name_index(function_models(functions@)),
{
    let mut names: HashMap<u64, String> = HashMap::new();
    let mut i: usize = 0;
    let ghost all = function_models(functions@);
    assert(text::text_map(names@) =~= name_index(all.take(0)));
    while i < functions.len()
        invariant
            i <= functions@.len(),
            all == function_models(functions@),
            text::text_map(names@) == name_index(all.take(i as int)),
        decreases functions@.len() - i,
    {
        let ghost before = names@;
        names.insert(functions[i].address, functions[i].name.clone());
        i = i + 1;
        assert(all.take(i as int).drop_last() =~= all.take(i - 1));
        assert(text::text_map(names@) =~= name_index(all.take(i as int)));
    }
    assert(all.take(i as int) =~= all);
    names
}

/// The ELF type of a relocation that fills a slot of the procedure linkage table.
pub const R_X86_64_JUMP_SLOT: u32 = 7;

/// The names of the dynamic symbols by their indices; symbols without a name are left out.
pub open spec fn dynamic_names(symbols: Seq<image::SymbolModel>) -> Map<usize, Seq<char>>
    decreases symbols.len(),
{
    if symbols.len() == 0 {
        Map::empty()
    } else {
        let rest = dynamic_names(symbols.drop_last());
        match symbols.last().name {
            Some(name) => if name.len() > 0 {
                rest.insert(symbols.last().index, name)
            } else {
                rest
            },
            None => rest,
        }
    }
}

/// The name that each slot of the procedure linkage table is filled with.
pub open spec fn plt_slots(
    relocations: Seq<RelocationEntry>,
    names: Map<usize, Seq<char>>,
) -> Map<u64, Seq<char>>
    decreases relocations.len(),
{
    if relocations.len() == 0 {
        Map::empty()
    } else {
        let rest = plt_slots(relocations.drop_last(), names);
        let last = relocations.last();
        match last.symbol {
            Some(symbol) => if last.elf_type == Some(R_X86_64_JUMP_SLOT) && names.contains_key(
                symbol,
            ) {
                rest.insert(last.address, names[symbol])
            } else {
                rest
            },
            None => rest,
        }
    }
}

/// The slots of the procedure linkage table of a file.
pub open spec fn file_slots(file: image::ImageModel) -> Map<u64, Seq<char>> {
    match file.dynamic_relocations {
        Some(relocations) => plt_slots(relocations, dynamic_names(file.dynamic_symbols)),
        None => Map::empty(),
    }
}

fn read_plt_slots(file: &ObjectImage) -> (r: HashMap<u64, String>)
    ensures
        text::text_map(r@) == file_slots(file@),
{
    let mut slots: HashMap<u64, String> = HashMap::new();
    let mut names: HashMap<usize, String> = HashMap::new();
    let ghost symbols = file@.dynamic_symbols;
    let mut i: usize = 0;
    assert(text::text_map(names@) =~= dynamic_names(symbols.take(0)));
    while i < file.dynamic_symbols.len()
        invariant
            i <= file.dynamic_symbols.len(),
            symbols == image::symbol_models(file.dynamic_symbols@),
            text::text_map(names@) == dynamic_names(symbols.take(i as int)),
        decreases file.dynamic_symbols.len() - i,
    {
        let symbol = &file.dynamic_symbols[i];
        proof {
            assert(symbols.take(i + 1).drop_last() =~= symbols.take(i as int));
            assert(symbols.take(i + 1).last() == symbol@);
        }
        if let Some(name) = &symbol.name {
            if !name.as_str().is_empty() {
                names.insert(symbol.index, name.clone());
            }
        }
        i = i + 1;
        assert(text::text_map(names@) =~= dynamic_names(symbols.take(i as int)));
    }
    assert(symbols.take(i as int) =~= symbols);
    let relocations = match &file.dynamic_relocations {
        Some(relocations) => relocations,
        None => {
            assert(text::text_map(slots@) =~= file_slots(file@));
            return slots;
        },
    };
    let ghost named = dynamic_names(symbols);
    let mut j: usize = 0;
    assert(text::text_map(slots@) =~= plt_slots(relocations@.take(0), named));
    while j < relocations.len()
        invariant
            j <= relocations.len(),
            text::text_map(names@) == named,
            text::text_map(slots@) == plt_slots(relocations@.take(j as int), named),
        decreases relocations.len() - j,
    {
        let reloc = &relocations[j];
        proof {
            assert(relocations@.take(j + 1).drop_last() =~= relocations@.take(j as int));
            assert(relocations@.take(j + 1).last() == reloc);
        }
        let is_jump_slot = match reloc.elf_type {
            Some(elf_type) => elf_type == R_X86_64_JUMP_SLOT,
            None => false,
        };
        if is_jump_slot {
            if let Some(symbol) = reloc.symbol {
                assert(names@.contains_key(symbol) == named.contains_key(symbol));
                if let Some(name) = names.get(&symbol) {
                    assert(named[symbol] == name@);
                    slots.insert(reloc.address, name.clone());
                }
            }
        }
        j = j + 1;
        assert(text::text_map(slots@) =~= plt_slots(relocations@.take(j as int), named));
    }
    assert(relocations@.take(j as int) =~= relocations@);
    slots
}

/// The address at which the stub around the end of these lines starts: that of the last `endbr64`,
/// or `base` where there was none.
pub open spec fn stub_start(lines: Seq<Line>, base: u64) -> u64
    decreases lines.len(),
{
    if lines.len() == 0 {
        base
    } else if lines.last().insn.mnemonic == Mnemonic::Endbr64 {
        lines.last().ip
    } else {
        stub_start(lines.drop_last(), base)
    }
}

/// The slot through which each stub jumps, by the address at which the stub starts.
pub open spec fn stub_slots(lines: Seq<Line>, base: u64) -> Map<u64, u64>
    decreases lines.len(),
{
    if lines.len() == 0 {
        Map::empty()
    } else {
        let rest = stub_slots(lines.drop_last(), base);
        let insn = lines.last().insn;
        if insn.mnemonic == Mnemonic::Jmp && insn.op0 == OpKind::Memory {
            rest.insert(stub_start(lines.drop_last(), base), insn.displacement)
        } else {
            rest
        }
    }
}

/// The stubs in a listing of the section that starts at `base`.
pub fn plt_stubs(lines: &Vec<Line>, base: u64) -> (r: HashMap<u64, u64>)
    ensures
        r@ == stub_slots(lines@, base),
{
    let mut stubs: HashMap<u64, u64> = HashMap::new();
    let mut current: u64 = base;
    let mut i: usize = 0;
    assert(stubs@ =~= stub_slots(lines@.take(0), base));
    while i < lines.len()
        invariant
            i <= lines.len(),
            current == stub_start(lines@.take(i as int), base),
            stubs@ == stub_slots(lines@.take(i as int), base),
        decreases lines.len() - i,
    {
        let line = lines[i];
        proof {
            assert(lines@.take(i + 1).drop_last() =~= lines@.take(i as int));
            assert(lines@.take(i + 1).last() == line);
        }
        match line.insn.mnemonic {
            Mnemonic::Endbr64 => {
                current = line.ip;
            },
            Mnemonic::Jmp => {
                if line.insn.op0 == OpKind::Memory {
                    stubs.insert(current, line.insn.displacement);
                }
            },
            _ => {},
        }
        i = i + 1;
    }
    assert(lines@.take(i as int) =~= lines@);
    stubs
}

/// The stubs of the procedure linkage table of a file.
pub open spec fn file_stubs(file: image::ImageModel) -> Map<u64, u64> {
    match file.plt_sec {
        Some(section) => match section.data {
            Some(data) => stub_slots(decode::listing(data, section.address), section.address),
            None => Map::empty(),
        },
        None => Map::empty(),
    }
}

fn read_plt_stubs(file: &ObjectImage) -> (r: HashMap<u64, u64>)
    ensures
        r@ == file_stubs(file@),
{
    let section = match &file.plt_sec {
        Some(section) => section,
        None => {
            return HashMap::new();
        },
    };
    let data = match &section.data {
        Some(data) => data,
        None => {
            return HashMap::new();
        },
    };
    let lines = decode::disassemble(data.as_slice(), section.address);
    plt_stubs(&lines, section.address)
}

/// The name of each stub whose slot has one.
pub open spec fn stub_names(stubs: Map<u64, u64>, slots: Map<u64, Seq<char>>) -> Map<u64, Seq<char>> {
    Map::new(
        |stub: u64| stubs.contains_key(stub) && slots.contains_key(stubs[stub]),
        |stub: u64| slots[stubs[stub]],
    )
}

/// The name of each stub whose slot has one.
pub fn name_stubs(stubs: &HashMap<u64, u64>, slots: &HashMap<u64, String>) -> (r: HashMap<
    u64,
    String,
>)
    ensures
        text::text_map(r@) == stub_names(stubs@, text::text_map(slots@)),
{
    let mut names: HashMap<u64, String> = HashMap::new();
    let keys = tables::keys_u64(stubs);
    let ghost want = stub_names(stubs@, text::text_map(slots@));
    let mut i: usize = 0;
    while i < keys.len()
        invariant
            i <= keys.len(),
            keys@.to_set() == stubs@.dom(),
            want == stub_names(stubs@, text::text_map(slots@)),
            forall|stub: u64| #[trigger]
                names@.contains_key(stub) <==> want.contains_key(stub) && keys@.take(
                    i as int,
                ).contains(stub),
            forall|stub: u64| #[trigger]
                names@.contains_key(stub) ==> names@[stub]@ == want[stub],
        decreases keys.len() - i,
    {
        let stub = keys[i];
        assert(keys@.to_set().contains(stub));
        let ghost before = names@;
        let ghost done = keys@.take(i as int);
        assert(keys@.take(i + 1) =~= done.push(stub));
        proof {
            order::lemma_push_set(done, stub);
            assert(forall|k: u64| done.push(stub).contains(k) <==> #[trigger] done.to_set().insert(stub).contains(k));
        }
        if let Some(slot) = stubs.get(&stub) {
            assert(text::text_map(slots@).contains_key(*slot) == slots@.contains_key(*slot));
            if let Some(name) = slots.get(slot) {
                names.insert(stub, name.clone());
            }
        }
        i = i + 1;
        assert forall|k: u64| #[trigger]
            names@.contains_key(k) <==> want.contains_key(k) && keys@.take(i as int).contains(k) by {
            assert(done.push(stub).contains(k) <==> done.to_set().insert(stub).contains(k));
        }
    }
    proof {
        assert(keys@.take(i as int) =~= keys@);
        assert forall|k: u64| want.contains_key(k) implies keys@.contains(k) by {
            assert(keys@.to_set().contains(k));
        }
        assert(text::text_map(names@) =~= want);
    }
    names
}

/// The names of the functions that the stubs of the procedure linkage table lead to, by the
/// addresses of the stubs.
pub fn resolve_plt(file: &ObjectImage) -> (r: HashMap<u64, String>)
    ensures
        text::text_map(r@) == stub_names(file_stubs(file@), file_slots(file@)),
{
    let slots = read_plt_slots(file);
    let stubs = read_plt_stubs(file);
    name_stubs(&stubs, &slots)
}

/// The name and the kind of what stands at `target`: a function of the file, a stub of the
/// procedure linkage table, or something unknown that is named after its address.
pub open spec fn resolved(
    target: u64,
    functions_by_addr: Map<u64, Seq<char>>,
    plt_names: Map<u64, Seq<char>>,
) -> (Seq<char>, NodeKind) {
    if functions_by_addr.contains_key(target) {
        (functions_by_addr[target], NodeKind::Local)
    } else if plt_names.contains_key(target) {
        (plt_names[target], NodeKind::Plt)
    } else {
        ("sub_"@ + text::hex(target as nat), NodeKind::Unknown)
    }
}

pub fn resolve_target(
    target: u64,
    functions_by_addr: &HashMap<u64, String>,
    plt_names: &HashMap<u64, String>,
) -> (r: (String, NodeKind))
    ensures
        (r.0@, r.1) == resolved(
            target,
            text::text_map(functions_by_addr@),
            text::text_map(plt_names@),
        ),
{
    assert(text::text_map(functions_by_addr@).contains_key(target)
        == functions_by_addr@.contains_key(target));
    assert(text::text_map(plt_names@).contains_key(target) == plt_names@.contains_key(target));
    if let Some(name) = functions_by_addr.get(&target) {
        (name.clone(), NodeKind::Local)
    } else if let Some(name) = plt_names.get(&target) {
        (name.clone(), NodeKind::Plt)
    } else {
        let mut name = String::new();
        name.append("sub_");
        text::push_hex(&mut name, target);
        assert(name@ =~= "sub_"@ + text::hex(target as nat));
        (name, NodeKind::Unknown)
    }
}

/// The functions are listed by their addresses, and they are those of the symbol table.
pub proof fn lemma_functions_listed(symbols: Seq<image::SymbolModel>)
    requires
        symbols.len() <= usize::MAX,
    ensures
        ({
            let listed = by_address(symbol_functions(symbols));
            &&& listed.len() == symbol_functions(symbols).len()
            &&& forall|i: int, j: int|
                0 <= i < j < listed.len() ==> (#[trigger] listed[i]).address <= (
                #[trigger] listed[j]).address
            &&& forall|f: FunctionModel|
                listed.contains(f) <==> symbol_functions(symbols).contains(f)
        }),
{
    let functions = symbol_functions(symbols);
    let key = |f: FunctionModel| f.address;
    symbols.lemma_filter_len(|s: image::SymbolModel| is_function_symbol(s));
    <u64 as order::Ranked>::lemma_strict();
    order::lemma_stable_sort(functions, key, order::rank_lt::<u64>());
    let listed = by_address(functions);
    assert forall|i: int, j: int| 0 <= i < j < listed.len() implies (#[trigger] listed[i]).address
        <= (#[trigger] listed[j]).address by {
        assert(!order::rank_lt::<u64>()(key(listed[j]), key(listed[i])));
    }
}

/// An address has a name exactly when a function stands there.
pub proof fn lemma_named_addresses(functions: Seq<FunctionModel>, address: u64)
    ensures
        name_index(functions).contains_key(address) <==> exists|i: int|
            0 <= i < functions.len() && (#[trigger] functions[i]).address == address,
    decreases functions.len(),
{
    if functions.len() > 0 {
        let front = functions.drop_last();
        let last = functions.len() - 1;
        lemma_named_addresses(front, address);
        if functions[last].address != address {
            if name_index(functions).contains_key(address) {
                let i = choose|i: int|
                    0 <= i < front.len() && (#[trigger] front[i]).address == address;
                assert(functions[i].address == address);
            }
            if exists|i: int|
                0 <= i < functions.len() && (#[trigger] functions[i]).address == address {
                let i = choose|i: int|
                    0 <= i < functions.len() && (#[trigger] functions[i]).address == address;
                assert(front[i].address == address);
            }
        }
    }
}

/// Of the functions at one address the last one gives the name.
pub proof fn lemma_last_name_wins(functions: Seq<FunctionModel>, i: int)
    requires
        0 <= i < functions.len(),
        forall|j: int|
            i < j < functions.len() ==> (#[trigger] functions[j]).address != functions[i].address,
    ensures
        name_index(functions).contains_key(functions[i].address),
        name_index(functions)[functions[i].address] == functions[i].name,
    decreases functions.len(),
{
    if i < functions.len() - 1 {
        let front = functions.drop_last();
        assert(functions[functions.len() - 1].address != functions[i].address);
        assert forall|j: int| i < j < front.len() implies (#[trigger] front[j]).address
            != front[i].address by {
            assert(functions[j].address != functions[i].address);
        }
        lemma_last_name_wins(front, i);
    }
}

/// A target is a local function exactly when a function of the file stands there, and an imported
/// one exactly when none does and a stub of the procedure linkage table does.
pub proof fn lemma_resolved_kind(
    target: u64,
    functions_by_addr: Map<u64, Seq<char>>,
    plt_names: Map<u64, Seq<char>>,
)
    ensures
        resolved(target, functions_by_addr, plt_names).1 == NodeKind::Local
            <==> functions_by_addr.contains_key(target),
        resolved(target, functions_by_addr, plt_names).1 == NodeKind::Plt
            <==> !functions_by_addr.contains_key(target) && plt_names.contains_key(target),
{
}

/// Two unknown targets are named differently.
pub proof fn lemma_unknown_names_differ(
    a: u64,
    b: u64,
    functions_by_addr: Map<u64, Seq<char>>,
    plt_names: Map<u64, Seq<char>>,
)
    requires
        resolved(a, functions_by_addr, plt_names).1 == NodeKind::Unknown,
        resolved(b, functions_by_addr, plt_names).1 == NodeKind::Unknown,
        resolved(a, functions_by_addr, plt_names).0 == resolved(
            b,
            functions_by_addr,
            plt_names,
        ).0,
    ensures
        a == b,
{
    let start = "sub_"@;
    let (x, y) = (text::hex(a as nat), text::hex(b as nat));
    assert((start + x).skip(start.len() as int) =~= x);
    assert((start + y).skip(start.len() as int) =~= y);
    text::lemma_hex_injective(a as nat, b as nat);
}

/// None of the lines from `from` to before `to` is an `endbr64`.
pub open spec fn unmarked(lines: Seq<Line>, from: int, to: int) -> bool {
    forall|k: int| from <= k < to ==> (#[trigger] lines[k]).insn.mnemonic != Mnemonic::Endbr64
}

/// The line `i` is the nearest `endbr64` before the line `j`.
pub open spec fn nearest_mark(lines: Seq<Line>, i: int, j: int) -> bool {
    &&& 0 <= i < j
    &&& lines[i].insn.mnemonic == Mnemonic::Endbr64
    &&& unmarked(lines, i + 1, j)
}

/// The stub around the line `j` starts at `start`: at the nearest `endbr64` before the line, or,
/// where there is none, at the start of the section.
pub open spec fn opened_at(lines: Seq<Line>, base: u64, j: int, start: u64) -> bool {
    ||| exists|i: int| #[trigger] nearest_mark(lines, i, j) && lines[i].ip == start
    ||| start == base && unmarked(lines, 0, j)
}

/// The line `j` is a jump through memory.
pub open spec fn memory_jump(lines: Seq<Line>, j: int) -> bool {
    &&& 0 <= j < lines.len()
    &&& lines[j].insn.mnemonic == Mnemonic::Jmp
    &&& lines[j].insn.op0 == OpKind::Memory
}

proof fn lemma_start_of_mark(lines: Seq<Line>, base: u64, i: int, j: int)
    requires
        nearest_mark(lines, i, j),
        j <= lines.len(),
    ensures
        stub_start(lines.take(j), base) == lines[i].ip,
    decreases j,
{
    assert(lines.take(j).drop_last() =~= lines.take(j - 1));
    assert(lines.take(j).last() == lines[j - 1]);
    if i < j - 1 {
        assert(lines[j - 1].insn.mnemonic != Mnemonic::Endbr64);
        assert(unmarked(lines, i + 1, j - 1));
        lemma_start_of_mark(lines, base, i, j - 1);
    }
}

proof fn lemma_start_unmarked(lines: Seq<Line>, base: u64, j: int)
    requires
        0 <= j <= lines.len(),
        unmarked(lines, 0, j),
    ensures
        stub_start(lines.take(j), base) == base,
    decreases j,
{
    if j > 0 {
        assert(lines.take(j).drop_last() =~= lines.take(j - 1));
        assert(lines.take(j).last() == lines[j - 1]);
        assert(lines[j - 1].insn.mnemonic != Mnemonic::Endbr64);
        assert(unmarked(lines, 0, j - 1));
        lemma_start_unmarked(lines, base, j - 1);
    }
}

proof fn lemma_start_opens(lines: Seq<Line>, base: u64, j: int)
    requires
        0 <= j <= lines.len(),
    ensures
        opened_at(lines, base, j, stub_start(lines.take(j), base)),
    decreases j,
{
    if j == 0 {
        assert(unmarked(lines, 0, 0));
    } else {
        let start = stub_start(lines.take(j), base);
        assert(lines.take(j).drop_last() =~= lines.take(j - 1));
        assert(lines.take(j).last() == lines[j - 1]);
        if lines[j - 1].insn.mnemonic == Mnemonic::Endbr64 {
            assert(unmarked(lines, j, j));
            assert(nearest_mark(lines, j - 1, j));
        } else {
            lemma_start_opens(lines, base, j - 1);
            if exists|i: int| #[trigger] nearest_mark(lines, i, j - 1) && lines[i].ip == start {
                let i = choose|i: int| #[trigger]
                    nearest_mark(lines, i, j - 1) && lines[i].ip == start;
                assert(unmarked(lines, i + 1, j));
                assert(nearest_mark(lines, i, j));
            } else {
                assert(unmarked(lines, 0, j));
            }
        }
    }
}

proof fn lemma_opened_at(lines: Seq<Line>, base: u64, j: int, start: u64)
    requires
        0 <= j <= lines.len(),
    ensures
        opened_at(lines, base, j, start) <==> stub_start(lines.take(j), base) == start,
{
    lemma_start_opens(lines, base, j);
    if opened_at(lines, base, j, start) {
        if exists|i: int| #[trigger] nearest_mark(lines, i, j) && lines[i].ip == start {
            let i = choose|i: int| #[trigger] nearest_mark(lines, i, j) && lines[i].ip == start;
            lemma_start_of_mark(lines, base, i, j);
        } else {
            lemma_start_unmarked(lines, base, j);
        }
    }
}

/// A jump through memory at `j` whose stub starts at `start`, and no later one does.
pub open spec fn last_jump(lines: Seq<Line>, base: u64, j: int, start: u64) -> bool {
    &&& memory_jump(lines, j)
    &&& opened_at(lines, base, j, start)
    &&& forall|k: int| j < k && #[trigger] memory_jump(lines, k) ==> !opened_at(
        lines,
        base,
        k,
        start,
    )
}

proof fn lemma_slots_by_start(lines: Seq<Line>, base: u64, start: u64)
    ensures
        stub_slots(lines, base).contains_key(start) ==> exists|j: int|
            {
                &&& #[trigger] memory_jump(lines, j)
                &&& stub_start(lines.take(j), base) == start
                &&& stub_slots(lines, base)[start] == lines[j].insn.displacement
                &&& forall|k: int| j < k && #[trigger] memory_jump(lines, k) ==> stub_start(
                    lines.take(k),
                    base,
                ) != start
            },
        forall|j: int| #[trigger]
            memory_jump(lines, j) && stub_start(lines.take(j), base) == start ==> stub_slots(
                lines,
                base,
            ).contains_key(start),
    decreases lines.len(),
{
    if lines.len() > 0 {
        let front = lines.drop_last();
        let last = lines.len() - 1;
        lemma_slots_by_start(front, base, start);
        assert forall|j: int| 0 <= j <= last implies #[trigger] lines.take(j) == front.take(
            j,
        ) by {
            assert(lines.take(j) =~= front.take(j));
        }
        assert(lines.take(last) =~= front);
        assert forall|j: int| 0 <= j < last implies #[trigger] memory_jump(lines, j)
            == memory_jump(front, j) by {}
        if stub_slots(lines, base).contains_key(start) {
            if memory_jump(lines, last) && stub_start(front, base) == start {
                assert(stub_slots(lines, base)[start] == lines[last].insn.displacement);
            } else {
                assert(stub_slots(front, base).contains_key(start));
                let j = choose|j: int|
                    {
                        &&& #[trigger] memory_jump(front, j)
                        &&& stub_start(front.take(j), base) == start
                        &&& stub_slots(front, base)[start] == front[j].insn.displacement
                        &&& forall|k: int| j < k && #[trigger] memory_jump(front, k) ==> stub_start(
                            front.take(k),
                            base,
                        ) != start
                    };
                assert(memory_jump(lines, j));
                assert(lines.take(j) == front.take(j));
                assert forall|k: int| j < k && #[trigger] memory_jump(lines, k) implies stub_start(
                    lines.take(k),
                    base,
                ) != start by {
                    if k < last {
                        assert(memory_jump(front, k));
                        assert(lines.take(k) == front.take(k));
                    } else {
                        assert(k == last);
                    }
                }
            }
        }
        assert forall|j: int| #[trigger]
            memory_jump(lines, j) && stub_start(lines.take(j), base) == start implies stub_slots(
            lines,
            base,
        ).contains_key(start) by {
            if j < last {
                assert(memory_jump(front, j));
                assert(lines.take(j) == front.take(j));
            }
        }
    }
}

/// A stub is found at an address exactly where a jump through memory has its stub start there, and
/// it jumps through the slot of the last such jump.
pub proof fn lemma_stubs_found(lines: Seq<Line>, base: u64, start: u64)
    ensures
        stub_slots(lines, base).contains_key(start) <==> exists|j: int| #[trigger]
            memory_jump(lines, j) && opened_at(lines, base, j, start),
        forall|j: int| #[trigger]
            last_jump(lines, base, j, start) ==> stub_slots(lines, base)[start]
                == lines[j].insn.displacement,
{
    lemma_slots_by_start(lines, base, start);
    if stub_slots(lines, base).contains_key(start) {
        let j = choose|j: int|
            {
                &&& #[trigger] memory_jump(lines, j)
                &&& stub_start(lines.take(j), base) == start
                &&& stub_slots(lines, base)[start] == lines[j].insn.displacement
                &&& forall|k: int| j < k && #[trigger] memory_jump(lines, k) ==> stub_start(
                    lines.take(k),
                    base,
                ) != start
            };
        lemma_opened_at(lines, base, j, start);
        assert forall|i: int| #[trigger] last_jump(lines, base, i, start) implies stub_slots(
            lines,
            base,
        )[start] == lines[i].insn.displacement by {
            lemma_opened_at(lines, base, i, start);
            if i < j {
                assert(memory_jump(lines, j));
            }
            if j < i {
                assert(memory_jump(lines, i));
            }
        }
    }
    if exists|j: int| #[trigger] memory_jump(lines, j) && opened_at(lines, base, j, start) {
        let j = choose|j: int| #[trigger]
            memory_jump(lines, j) && opened_at(lines, base, j, start);
        lemma_opened_at(lines, base, j, start);
    }
    assert forall|i: int| #[trigger] last_jump(lines, base, i, start) implies stub_slots(
        lines,
        base,
    ).contains_key(start) by {
        lemma_opened_at(lines, base, i, start);
        assert(memory_jump(lines, i));
    }
}

/// The stub that an `endbr64` opens is found under the address of that instruction, with the slot
/// of the jump through memory behind it, where no other `endbr64` stands between the two and no
/// later jump belongs to a stub at that address.
pub proof fn lemma_stub_of_jump(lines: Seq<Line>, base: u64, i: int, j: int)
    requires
        0 <= i < j < lines.len(),
        lines[i].insn.mnemonic == Mnemonic::Endbr64,
        forall|k: int| i < k < j ==> (#[trigger] lines[k]).insn.mnemonic != Mnemonic::Endbr64,
        lines[j].insn.mnemonic == Mnemonic::Jmp,
        lines[j].insn.op0 == OpKind::Memory,
    ensures
        stub_slots(lines, base).contains_key(lines[i].ip),
        (forall|k: int| j < k && #[trigger] memory_jump(lines, k) ==> !opened_at(
            lines,
            base,
            k,
            lines[i].ip,
        )) ==> stub_slots(lines, base)[lines[i].ip] == lines[j].insn.displacement,
{
    let start = lines[i].ip;
    assert(memory_jump(lines, j));
    assert(nearest_mark(lines, i, j));
    assert(opened_at(lines, base, j, start));
    lemma_stubs_found(lines, base, start);
    if forall|k: int| j < k && #[trigger] memory_jump(lines, k) ==> !opened_at(
        lines,
        base,
        k,
        start,
    ) {
        assert(last_jump(lines, base, j, start));
    }
}

/// The symbol at `i` has this index and a name that is not empty.
pub open spec fn names_index(symbols: Seq<image::SymbolModel>, i: int, index: usize) -> bool {
    &&& 0 <= i < symbols.len()
    &&& symbols[i].index == index
    &&& symbols[i].name is Some
    &&& symbols[i].name->0.len() > 0
}

/// An index has a name exactly where a dynamic symbol with that index has one, and it is the name
/// of the last such symbol.
pub proof fn lemma_dynamic_names(symbols: Seq<image::SymbolModel>, index: usize)
    ensures
        dynamic_names(symbols).contains_key(index) <==> exists|i: int|
            names_index(symbols, i, index),
        forall|i: int| #[trigger]
            names_index(symbols, i, index) && (forall|k: int|
                i < k ==> !(#[trigger] names_index(symbols, k, index))) ==> dynamic_names(
                symbols,
            )[index] == symbols[i].name->0,
    decreases symbols.len(),
{
    if symbols.len() > 0 {
        let front = symbols.drop_last();
        let last = symbols.len() - 1;
        lemma_dynamic_names(front, index);
        assert forall|i: int| i < last implies #[trigger] names_index(symbols, i, index)
            == names_index(front, i, index) by {}
        if exists|i: int| names_index(front, i, index) {
            let i = choose|i: int| names_index(front, i, index);
            assert(names_index(symbols, i, index));
        }
        if exists|i: int| names_index(symbols, i, index) {
            let i = choose|i: int| names_index(symbols, i, index);
            if i < last {
                assert(names_index(front, i, index));
            } else {
                assert(names_index(symbols, last, index));
            }
        }
        if dynamic_names(symbols).contains_key(index) && !dynamic_names(front).contains_key(index) {
            assert(names_index(symbols, last, index));
        }
        assert forall|i: int| #[trigger]
            names_index(symbols, i, index) && (forall|k: int|
                i < k ==> !(#[trigger] names_index(symbols, k, index))) implies dynamic_names(
            symbols,
        )[index] == symbols[i].name->0 by {
            if i < last {
                assert(!names_index(symbols, last, index));
                assert(names_index(front, i, index));
                assert forall|k: int| i < k implies !(#[trigger] names_index(front, k, index)) by {
                    if names_index(front, k, index) {
                        assert(names_index(symbols, k, index));
                    }
                }
            }
        }
    }
}

/// The relocation at `i` fills the slot at this address of the procedure linkage table with a
/// symbol that has a name.
pub open spec fn fills_slot(
    relocations: Seq<RelocationEntry>,
    names: Map<usize, Seq<char>>,
    i: int,
    slot: u64,
) -> bool {
    &&& 0 <= i < relocations.len()
    &&& relocations[i].address == slot
    &&& relocations[i].elf_type == Some(7u32)
    &&& relocations[i].symbol is Some
    &&& names.contains_key(relocations[i].symbol->0)
}

/// A slot has a name exactly where a relocation fills it with a symbol that has one, and it is the
/// name of the last such symbol.
pub proof fn lemma_slots_filled(
    relocations: Seq<RelocationEntry>,
    names: Map<usize, Seq<char>>,
    slot: u64,
)
    ensures
        plt_slots(relocations, names).contains_key(slot) <==> exists|i: int|
            fills_slot(relocations, names, i, slot),
        forall|i: int| #[trigger]
            fills_slot(relocations, names, i, slot) && (forall|k: int|
                i < k ==> !(#[trigger] fills_slot(relocations, names, k, slot))) ==> plt_slots(
                relocations,
                names,
            )[slot] == names[relocations[i].symbol->0],
    decreases relocations.len(),
{
    if relocations.len() > 0 {
        let front = relocations.drop_last();
        let last = relocations.len() - 1;
        lemma_slots_filled(front, names, slot);
        assert forall|i: int| i < last implies #[trigger] fills_slot(relocations, names, i, slot)
            == fills_slot(front, names, i, slot) by {}
        if exists|i: int| fills_slot(front, names, i, slot) {
            let i = choose|i: int| fills_slot(front, names, i, slot);
            assert(fills_slot(relocations, names, i, slot));
        }
        if exists|i: int| fills_slot(relocations, names, i, slot) {
            let i = choose|i: int| fills_slot(relocations, names, i, slot);
            if i < last {
                assert(fills_slot(front, names, i, slot));
            } else {
                assert(fills_slot(relocations, names, last, slot));
            }
        }
        if plt_slots(relocations, names).contains_key(slot) && !plt_slots(
            front,
            names,
        ).contains_key(slot) {
            assert(fills_slot(relocations, names, last, slot));
        }
        assert forall|i: int| #[trigger]
            fills_slot(relocations, names, i, slot) && (forall|k: int|
                i < k ==> !(#[trigger] fills_slot(relocations, names, k, slot))) implies plt_slots(
            relocations,
            names,
        )[slot] == names[relocations[i].symbol->0] by {
            if i < last {
                assert(!fills_slot(relocations, names, last, slot));
                assert(fills_slot(front, names, i, slot));
                assert forall|k: int| i < k implies !(#[trigger] fills_slot(
                    front,
                    names,
                    k,
                    slot,
                )) by {
                    if fills_slot(front, names, k, slot) {
                        assert(fills_slot(relocations, names, k, slot));
                    }
                }
            }
        }
    }
}

/// The slots of a file are filled by its dynamic relocations with its dynamic symbols, and its
/// stubs are those in the listing of its section of them; a file without either has none.
pub proof fn lemma_plt_sources(file: image::ImageModel)
    ensures
        file_slots(file) == match file.dynamic_relocations {
            Some(relocations) => plt_slots(relocations, dynamic_names(file.dynamic_symbols)),
            None => Map::empty(),
        },
        file.plt_sec is Some && file.plt_sec->0.data is Some ==> file_stubs(file) == stub_slots(
            decode::listing(file.plt_sec->0.data->0, file.plt_sec->0.address),
            file.plt_sec->0.address,
        ),
        file.plt_sec is None || file.plt_sec->0.data is None ==> file_stubs(file) == Map::<
            u64,
            u64,
        >::empty(),
{
}

/// A stub is named exactly where the slot that it jumps through has a name, and has that name.
pub proof fn lemma_stubs_named(stubs: Map<u64, u64>, slots: Map<u64, Seq<char>>, stub: u64)
    ensures
        stub_names(stubs, slots).contains_key(stub) <==> stubs.contains_key(stub)
            && slots.contains_key(stubs[stub]),
        stub_names(stubs, slots).contains_key(stub) ==> stub_names(stubs, slots)[stub]
            == slots[stubs[stub]],
{
}

/// A symbol of the file becomes a function exactly where it stands for code at an address that is
/// not zero: with its name, or a stand-in where that cannot be read, its address and its size, and
/// with nothing counted yet.
pub proof fn lemma_symbols_to_functions(symbols: Seq<image::SymbolModel>)
    ensures
        symbol_functions(symbols) == symbols.filter(
            |s: image::SymbolModel| s.is_text && s.address != 0,
        ).map_values(
            |s: image::SymbolModel|
                FunctionModel {
                    name: if s.name is Some {
                        s.name->0
                    } else {
                        "<unknown>"@
                    },
                    address: s.address,
                    size: s.size,
                    instructions: 0,
                    calls_out: 0,
                    exported: s.exported,
                },
        ),
{
    let pick = |s: image::SymbolModel| is_function_symbol(s);
    assert(pick =~= (|s: image::SymbolModel| s.is_text && s.address != 0));
    let turn = |s: image::SymbolModel| symbol_function(s);
    assert(turn =~= (|s: image::SymbolModel|
        FunctionModel {
            name: if s.name is Some {
                s.name->0
            } else {
                "<unknown>"@
            },
            address: s.address,
            size: s.size,
            instructions: 0,
            calls_out: 0,
            exported: s.exported,
        }));
}

/// A symbol that stands for code at an address is among the functions.
pub proof fn lemma_symbol_listed(symbols: Seq<image::SymbolModel>, i: int)
    requires
        symbols.len() <= usize::MAX,
        0 <= i < symbols.len(),
        symbols[i].is_text,
        symbols[i].address != 0,
    ensures
        ({
            let listed = by_address(symbol_functions(symbols));
            exists|k: int|
                {
                    &&& 0 <= k < listed.len()
                    &&& (#[trigger] listed[k]).address == symbols[i].address
                    &&& listed[k].size == symbols[i].size
                    &&& listed[k].exported == symbols[i].exported
                    &&& symbols[i].name is Some ==> listed[k].name == symbols[i].name->0
                }
        }),
{
    let pick = |s: image::SymbolModel| is_function_symbol(s);
    let picked = symbols.filter(pick);
    symbols.lemma_filter_contains(pick, i);
    let m = choose|m: int| 0 <= m < picked.len() && picked[m] == symbols[i];
    let functions = symbol_functions(symbols);
    assert(functions[m] == symbol_function(symbols[i]));
    assert(functions.contains(symbol_function(symbols[i])));
    lemma_functions_listed(symbols);
    let listed = by_address(functions);
    assert(listed.contains(symbol_function(symbols[i])));
    let k = choose|k: int| 0 <= k < listed.len() && listed[k] == symbol_function(symbols[i]);
    assert(listed[k].address == symbols[i].address);
}

/// A target is named after the function of the file that stands there; failing that, after the
/// stub; and failing both, after its address.
pub proof fn lemma_resolved_name(
    target: u64,
    functions_by_addr: Map<u64, Seq<char>>,
    plt_names: Map<u64, Seq<char>>,
)
    ensures
        resolved(target, functions_by_addr, plt_names).0 == if functions_by_addr.contains_key(
            target,
        ) {
            functions_by_addr[target]
        } else if plt_names.contains_key(target) {
            plt_names[target]
        } else {
            seq!['s', 'u', 'b', '_'] + text::hex(target as nat)
        },
{
    reveal_strlit("sub_");
    assert("sub_"@ =~= seq!['s', 'u', 'b', '_']);
}

/// The functions are listed by their addresses, and those at one address in the order of the symbol
/// table: `order` is where each stood there.
pub proof fn lemma_functions_in_order(functions: Seq<FunctionModel>) -> (order: Seq<usize>)
    requires
        functions.len() <= usize::MAX,
    ensures
        ({
            let listed = by_address(functions);
            &&& order.len() == functions.len() && listed.len() == functions.len()
            &&& order.no_duplicates()
            &&& forall|i: int|
                0 <= i < order.len() ==> #[trigger] order[i] < functions.len() && listed[i]
                    == functions[order[i] as int]
            &&& forall|i: int, j: int|
                0 <= i < j < order.len() ==> {
                    let (a, b) = (#[trigger] order[i], #[trigger] order[j]);
                    functions[a as int].address < functions[b as int].address || (
                    functions[a as int].address == functions[b as int].address && a < b)
                }
        }),
{
    <u64 as order::Ranked>::lemma_strict();
    order::lemma_sorted_positions(
        functions,
        |f: FunctionModel| f.address,
        order::rank_lt::<u64>(),
    )
}

} // verus!
