//! The direct calls that the functions of a binary make.
use vstd::prelude::*;

use crate::binary;
use crate::binary::Function;
use crate::decode;
use crate::decode::Line;
use crate::decode::Mnemonic;
use crate::decode::OpKind;
use crate::image;
use crate::image::ObjectImage;

verus! {

/// The line is a direct call.
pub open spec fn is_call(line: Line) -> bool {
    line.insn.mnemonic == Mnemonic::Call && line.insn.op0 == OpKind::NearBranch64
}

/// The direct calls in a listing of the function at `caller`: each the caller's address and the
/// target's.
pub open spec fn listed_calls(caller: u64, lines: Seq<Line>) -> Seq<(u64, u64)>
    decreases lines.len(),
{
    if lines.len() == 0 {
        Seq::empty()
    } else if is_call(lines.last()) {
        listed_calls(caller, lines.drop_last()).push((caller, lines.last().insn.target))
    } else {
        listed_calls(caller, lines.drop_last())
    }
}

/// A function whose code has been listed.
pub open spec fn counted(f: binary::FunctionModel, lines: Seq<Line>) -> binary::FunctionModel {
    binary::FunctionModel {
        instructions: (f.instructions + lines.len()) as u32,
        calls_out: (f.calls_out + listed_calls(f.address, lines).len()) as u32,
        ..f
    }
}

/// The counts of a function hold what the listing adds to them.
pub open spec fn counts_fit(f: binary::FunctionModel, lines: Seq<Line>) -> bool {
    f.instructions + lines.len() <= u32::MAX && f.calls_out + listed_calls(
        f.address,
        lines,
    ).len() <= u32::MAX
}

/// The function lies inside the section.
pub open spec fn lies_in(f: binary::FunctionModel, section: image::SectionModel) -> bool {
    f.size != 0 && f.address >= section.address && f.address + f.size <= section.address
        + section.size
}

/// The bytes of the section from `address` on, as many as `size`, where it holds them all.
pub open spec fn section_range(section: image::SectionModel, address: u64, size: u64) -> Option<
    Seq<u8>,
> {
    match section.data {
        Some(data) => if address >= section.address && address - section.address + size
            <= data.len() {
            Some(
                data.subrange(
                    address - section.address,
                    address - section.address + size,
                ),
            )
        } else {
            None
        },
        None => None,
    }
}

/// The listing of a function; empty where its code is not at hand.
pub open spec fn function_listing(
    f: binary::FunctionModel,
    section: Option<image::SectionModel>,
) -> Seq<Line> {
    match section {
        Some(section) => match section_range(section, f.address, f.size) {
            Some(code) => if lies_in(f, section) {
                decode::listing(code, f.address)
            } else {
                Seq::empty()
            },
            None => Seq::empty(),
        },
        None => Seq::empty(),
    }
}

/// The functions with their code counted.
pub open spec fn counted_all(
    functions: Seq<binary::FunctionModel>,
    section: Option<image::SectionModel>,
) -> Seq<binary::FunctionModel> {
    functions.map_values(|f: binary::FunctionModel| counted(f, function_listing(f, section)))
}

/// The calls that the functions make, one function's behind the other's.
pub open spec fn calls_of_all(
    functions: Seq<binary::FunctionModel>,
    section: Option<image::SectionModel>,
) -> Seq<(u64, u64)>
    decreases functions.len(),
{
    if functions.len() == 0 {
        Seq::empty()
    } else {
        let f = functions.last();
        calls_of_all(functions.drop_last(), section) + listed_calls(
            f.address,
            function_listing(f, section),
        )
    }
}

/// No end address of the section or of a function that starts in or behind it overflows.
pub open spec fn ends_fit(
    functions: Seq<binary::FunctionModel>,
    section: Option<image::SectionModel>,
) -> bool {
    match section {
        Some(section) => {
            &&& section.address + section.size <= u64::MAX
            &&& forall|i: int|
                0 <= i < functions.len() && (#[trigger] functions[i]).size != 0
                    && functions[i].address >= section.address ==> functions[i].address
                    + functions[i].size <= u64::MAX
        },
        None => true,
    }
}

/// The counts of every function hold what its listing adds to them.
pub open spec fn all_counts_fit(
    functions: Seq<binary::FunctionModel>,
    section: Option<image::SectionModel>,
) -> bool {
    forall|i: int|
        0 <= i < functions.len() ==> counts_fit(
            #[trigger] functions[i],
            function_listing(functions[i], section),
        )
}

proof fn lemma_listed_calls_len(caller: u64, lines: Seq<Line>)
    ensures
        listed_calls(caller, lines).len() <= lines.len(),
    decreases lines.len(),
{
    if lines.len() > 0 {
        lemma_listed_calls_len(caller, lines.drop_last());
    }
}

proof fn lemma_listed_calls_take(caller: u64, lines: Seq<Line>, i: int)
    requires
        0 <= i <= lines.len(),
    ensures
        listed_calls(caller, lines.take(i)).len() <= listed_calls(caller, lines).len(),
    decreases lines.len(),
{
    if i < lines.len() {
        lemma_listed_calls_take(caller, lines.drop_last(), i);
        assert(lines.drop_last().take(i) =~= lines.take(i));
    } else {
        assert(lines.take(i) =~= lines);
    }
}

/// The number of direct calls in a listing.
fn count_calls(lines: &Vec<Line>, caller: Ghost<u64>) -> (n: usize)
    ensures
        n == listed_calls(caller@, lines@).len(),
{
    let mut n: usize = 0;
    let mut i: usize = 0;
    while i < lines.len()
        invariant
            i <= lines.len(),
            n == listed_calls(caller@, lines@.take(i as int)).len(),
            n <= i,
        decreases lines.len() - i,
    {
        assert(lines@.take(i + 1).drop_last() =~= lines@.take(i as int));
        if lines[i].insn.mnemonic == Mnemonic::Call && lines[i].insn.op0 == OpKind::NearBranch64 {
            n = n + 1;
        }
        i = i + 1;
    }
    assert(lines@.take(i as int) =~= lines@);
    n
}

/// Counts the listing of a function into it and appends the calls that it makes.
pub fn count_listing(f: &mut Function, lines: &Vec<Line>, calls: &mut Vec<(u64, u64)>)
    requires
        counts_fit(old(f)@, lines@),
    ensures
        final(f)@ == counted(old(f)@, lines@),
        final(calls)@ == old(calls)@ + listed_calls(old(f).address, lines@),
{
    let ghost first = f@;
    let ghost had = calls@;
    let mut i: usize = 0;
    assert(lines@.take(0) =~= Seq::empty());
    assert(calls@ =~= had + listed_calls(first.address, lines@.take(0)));
    while i < lines.len()
        invariant
            i <= lines.len(),
            counts_fit(first, lines@),
            f@ == counted(first, lines@.take(i as int)),
            counts_fit(first, lines@.take(i as int)),
            calls@ == had + listed_calls(first.address, lines@.take(i as int)),
        decreases lines.len() - i,
    {
        let insn = lines[i].insn;
        proof {
            assert(lines@.take(i + 1).drop_last() =~= lines@.take(i as int));
            assert(lines@.take(i + 1).last() == lines@[i as int]);
            lemma_listed_calls_take(first.address, lines@, i + 1);
        }
        f.instructions = f.instructions + 1;
        if insn.mnemonic == Mnemonic::Call && insn.op0 == OpKind::NearBranch64 {
            f.calls_out = f.calls_out + 1;
            calls.push((f.address, insn.target));
        }
        i = i + 1;
        assert(calls@ =~= had + listed_calls(first.address, lines@.take(i as int)));
    }
    assert(lines@.take(i as int) =~= lines@);
}

/// The listing of a function.
fn list_function(f: &Function, section: &image::Section) -> (lines: Vec<Line>)
    requires
        ends_fit(seq![f@], Some(section@)),
    ensures
        lines@ == function_listing(f@, Some(section@)),
{
    assert(seq![f@][0] == f@);
    if f.size == 0 || f.address < section.address || f.address + f.size > section.address
        + section.size {
        return Vec::new();
    }
    let data = match &section.data {
        Some(data) => data,
        None => {
            return Vec::new();
        },
    };
    let offset: u64 = f.address - section.address;
    if offset > data.len() as u64 || f.size > data.len() as u64 - offset {
        return Vec::new();
    }
    let code = vstd::slice::slice_subrange(
        data.as_slice(),
        offset as usize,
        offset as usize + f.size as usize,
    );
    decode::disassemble(code, f.address)
}

/// Counts the instructions and the direct calls of each function, and returns all those calls.
pub fn analyze_functions(file: &ObjectImage, functions: &mut Vec<Function>) -> (calls: Vec<
    (u64, u64),
>)
    requires
        ends_fit(binary::function_models(old(functions)@), file@.text),
        all_counts_fit(binary::function_models(old(functions)@), file@.text),
    ensures
        binary::function_models(final(functions)@) == counted_all(
            binary::function_models(old(functions)@),
            file@.text,
        ),
        calls@ == calls_of_all(binary::function_models(old(functions)@), file@.text),
{
    let ghost first = binary::function_models(functions@);
    let mut calls: Vec<(u64, u64)> = Vec::new();
    let text = match &file.text {
        Some(text) => text,
        None => {
            proof {
                lemma_nothing_listed(first);
            }
            return calls;
        },
    };
    let n = functions.len();
    let mut i: usize = 0;
    while i < n
        invariant
            i <= n,
            n == functions.len(),
            n == first.len(),
            file@.text == Some(text@),
            ends_fit(first, file@.text),
            all_counts_fit(first, file@.text),
            forall|k: int|
                0 <= k < i ==> (#[trigger] functions@[k])@ == counted(
                    first[k],
                    function_listing(first[k], file@.text),
                ),
            forall|k: int| i <= k < n ==> (#[trigger] functions@[k])@ == first[k],
            calls@ == calls_of_all(first.take(i as int), file@.text),
        decreases n - i,
    {
        let ghost before = functions@;
        let ghost f = first[i as int];
        assert(functions@[i as int]@ == f);
        let lines = list_function(&functions[i], text);
        count_listing(&mut functions[i], &lines, &mut calls);
        proof {
            assert(first.take(i + 1).drop_last() =~= first.take(i as int));
            assert(first.take(i + 1).last() == f);
        }
        i = i + 1;
    }
    proof {
        assert(first.take(i as int) =~= first);
        assert(binary::function_models(functions@) =~= counted_all(first, file@.text));
    }
    calls
}

proof fn lemma_nothing_listed(functions: Seq<binary::FunctionModel>)
    ensures
        counted_all(functions, None) == functions,
        calls_of_all(functions, None) == Seq::<(u64, u64)>::empty(),
    decreases functions.len(),
{
    assert(counted_all(functions, None) =~= functions);
    if functions.len() > 0 {
        lemma_nothing_listed(functions.drop_last());
        assert(calls_of_all(functions, None) =~= Seq::<(u64, u64)>::empty());
    }
}

/// Like [`analyze_functions`], on any functions: `None`, and the functions as they were, where an
/// end address or a count would overflow.
pub fn try_analyze_functions(file: &ObjectImage, functions: &mut Vec<Function>) -> (r: Option<
    Vec<(u64, u64)>,
>)
    ensures
        ({
            let first = binary::function_models(old(functions)@);
            let fits = ends_fit(first, file@.text) && all_counts_fit(first, file@.text);
            match r {
                Some(calls) => fits && calls@ == calls_of_all(first, file@.text)
                    && binary::function_models(final(functions)@) == counted_all(first, file@.text),
                None => !fits && final(functions)@ == old(functions)@,
            }
        }),
{
    let ghost first = binary::function_models(functions@);
    if let Some(text) = &file.text {
        if text.size > u64::MAX - text.address {
            return None;
        }
        let mut i: usize = 0;
        while i < functions.len()
            invariant
                i <= functions.len(),
                first == binary::function_models(functions@),
                file@.text == Some(text@),
                text.address + text.size <= u64::MAX,
                functions@ == old(functions)@,
                ends_fit(first.take(i as int), file@.text),
                all_counts_fit(first.take(i as int), file@.text),
            decreases functions.len() - i,
        {
            let f = &functions[i];
            assert(first[i as int] == f@);
            if f.size != 0 && f.address >= text.address && f.size > u64::MAX - f.address {
                return None;
            }
            let lines = list_function(f, text);
            let calls = count_calls(&lines, Ghost(f.address));
            if lines.len() > (u32::MAX - f.instructions) as usize || calls > (u32::MAX
                - f.calls_out) as usize {
                assert(!counts_fit(first[i as int], function_listing(first[i as int], file@.text)));
                return None;
            }
            i = i + 1;
            proof {
                assert forall|k: int| 0 <= k < i implies counts_fit(
                    #[trigger] first.take(i as int)[k],
                    function_listing(first.take(i as int)[k], file@.text),
                ) by {
                    if k < i - 1 {
                        assert(first.take(i - 1)[k] == first[k]);
                    }
                }
                assert forall|k: int|
                    0 <= k < i && (#[trigger] first.take(i as int)[k]).size != 0 && first.take(
                        i as int,
                    )[k].address >= text.address implies first.take(i as int)[k].address
                    + first.take(i as int)[k].size <= u64::MAX by {
                    if k < i - 1 {
                        assert(first.take(i - 1)[k] == first[k]);
                    }
                }
            }
        }
        assert(first.take(i as int) =~= first);
    } else {
        assert forall|k: int| 0 <= k < first.len() implies counts_fit(
            #[trigger] first[k],
            function_listing(first[k], file@.text),
        ) by {
            lemma_listed_calls_len(first[k].address, Seq::empty());
        }
    }
    Some(analyze_functions(file, functions))
}

/// The calls that the functions make, added up.
pub open spec fn total_calls_out(functions: Seq<binary::FunctionModel>) -> nat
    decreases functions.len(),
{
    if functions.len() == 0 {
        0
    } else {
        total_calls_out(functions.drop_last()) + functions.last().calls_out as nat
    }
}

/// The calls that were found are as many as those that were counted into the functions.
pub proof fn lemma_calls_counted(
    functions: Seq<binary::FunctionModel>,
    section: Option<image::SectionModel>,
)
    requires
        all_counts_fit(functions, section),
    ensures
        total_calls_out(counted_all(functions, section)) == total_calls_out(functions)
            + calls_of_all(functions, section).len(),
    decreases functions.len(),
{
    if functions.len() > 0 {
        let front = functions.drop_last();
        let last = functions.last();
        assert forall|i: int| 0 <= i < front.len() implies counts_fit(
            #[trigger] front[i],
            function_listing(front[i], section),
        ) by {
            assert(front[i] == functions[i]);
        }
        lemma_calls_counted(front, section);
        assert(functions[functions.len() - 1] == last);
        assert(counts_fit(last, function_listing(last, section)));
        assert(counted_all(functions, section).drop_last() =~= counted_all(front, section));
    }
}

/// Each call that was found starts in one of the functions.
pub proof fn lemma_callers_are_functions(
    functions: Seq<binary::FunctionModel>,
    section: Option<image::SectionModel>,
    i: int,
)
    requires
        0 <= i < calls_of_all(functions, section).len(),
    ensures
        exists|k: int|
            0 <= k < functions.len() && (#[trigger] functions[k]).address == calls_of_all(
                functions,
                section,
            )[i].0,
    decreases functions.len(),
{
    if functions.len() > 0 {
        let front = functions.drop_last();
        let f = functions.last();
        let before = calls_of_all(front, section);
        if i < before.len() {
            lemma_callers_are_functions(front, section, i);
            let k = choose|k: int|
                0 <= k < front.len() && (#[trigger] front[k]).address == before[i].0;
            assert(functions[k].address == before[i].0);
        } else {
            lemma_listed_callers(f.address, function_listing(f, section), i - before.len());
            assert(functions[functions.len() - 1].address == f.address);
        }
    }
}

proof fn lemma_listed_callers(caller: u64, lines: Seq<Line>, i: int)
    requires
        0 <= i < listed_calls(caller, lines).len(),
    ensures
        listed_calls(caller, lines)[i].0 == caller,
    decreases lines.len(),
{
    if lines.len() > 0 && i < listed_calls(caller, lines.drop_last()).len() {
        lemma_listed_callers(caller, lines.drop_last(), i);
    }
}

/// Looking at the code changes the counts of the functions and nothing else.
pub proof fn lemma_counting_keeps(
    functions: Seq<binary::FunctionModel>,
    section: Option<image::SectionModel>,
)
    ensures
        counted_all(functions, section).len() == functions.len(),
        forall|i: int|
            0 <= i < functions.len() ==> {
                let f = #[trigger] counted_all(functions, section)[i];
                f.name == functions[i].name && f.address == functions[i].address && f.size
                    == functions[i].size && f.exported == functions[i].exported
            },
        binary::name_index(counted_all(functions, section)) == binary::name_index(functions),
    decreases functions.len(),
{
    if functions.len() > 0 {
        lemma_counting_keeps(functions.drop_last(), section);
        assert(counted_all(functions, section).drop_last() =~= counted_all(
            functions.drop_last(),
            section,
        ));
    }
}

/// The calls that are found in a listing are exactly its near calls, in their order and none left
/// out, each from the caller to the target that the instruction names.
pub proof fn lemma_direct_calls(caller: u64, lines: Seq<Line>)
    ensures
        listed_calls(caller, lines) == lines.filter(
            |line: Line|
                line.insn.mnemonic == Mnemonic::Call && line.insn.op0 == OpKind::NearBranch64,
        ).map_values(|line: Line| (caller, line.insn.target)),
    decreases lines.len(),
{
    let near = |line: Line|
        line.insn.mnemonic == Mnemonic::Call && line.insn.op0 == OpKind::NearBranch64;
    let pair = |line: Line| (caller, line.insn.target);
    reveal(Seq::filter);
    if lines.len() > 0 {
        let front = lines.drop_last();
        lemma_direct_calls(caller, front);
        if near(lines.last()) {
            assert(lines.filter(near).map_values(pair) =~= front.filter(near).map_values(pair).push(
                pair(lines.last()),
            ));
        }
    } else {
        assert(lines.filter(near).map_values(pair) =~= Seq::empty());
    }
}

/// Every near call in a listing is among the calls that are found, wherever it leads, and nothing
/// else is.
pub proof fn lemma_call_found(caller: u64, lines: Seq<Line>, call: (u64, u64))
    ensures
        listed_calls(caller, lines).contains(call) <==> call.0 == caller && exists|i: int|
            {
                &&& 0 <= i < lines.len()
                &&& (#[trigger] lines[i]).insn.mnemonic == Mnemonic::Call
                &&& lines[i].insn.op0 == OpKind::NearBranch64
                &&& lines[i].insn.target == call.1
            },
    decreases lines.len(),
{
    if lines.len() > 0 {
        let front = lines.drop_last();
        let last = lines.last();
        let rest = listed_calls(caller, front);
        let all = listed_calls(caller, lines);
        lemma_call_found(caller, front, call);
        assert(lines[lines.len() - 1] == last);
        if rest.contains(call) {
            let k = choose|k: int| 0 <= k < rest.len() && rest[k] == call;
            assert(all[k] == call);
            let i = choose|i: int|
                {
                    &&& 0 <= i < front.len()
                    &&& (#[trigger] front[i]).insn.mnemonic == Mnemonic::Call
                    &&& front[i].insn.op0 == OpKind::NearBranch64
                    &&& front[i].insn.target == call.1
                };
            assert(lines[i].insn.target == call.1);
        }
        if all.contains(call) && !rest.contains(call) {
            let k = choose|k: int| 0 <= k < all.len() && all[k] == call;
            if k < rest.len() {
                assert(rest[k] == call);
            }
        }
        if call.0 == caller && exists|i: int|
            {
                &&& 0 <= i < lines.len()
                &&& (#[trigger] lines[i]).insn.mnemonic == Mnemonic::Call
                &&& lines[i].insn.op0 == OpKind::NearBranch64
                &&& lines[i].insn.target == call.1
            } {
            let i = choose|i: int|
                {
                    &&& 0 <= i < lines.len()
                    &&& (#[trigger] lines[i]).insn.mnemonic == Mnemonic::Call
                    &&& lines[i].insn.op0 == OpKind::NearBranch64
                    &&& lines[i].insn.target == call.1
                };
            if i < front.len() {
                assert(front[i].insn.target == call.1);
                assert(rest.contains(call));
            } else {
                assert(all[rest.len() as int] == call);
            }
        }
    } else {
        assert(listed_calls(caller, lines) =~= Seq::empty());
    }
}

/// Counting a listing adds the number of its lines to a function's instructions and the number of
/// its near calls to the calls that the function makes, and changes nothing else; it can be done
/// exactly where both sums can be held.
pub proof fn lemma_listing_counted(f: binary::FunctionModel, lines: Seq<Line>)
    ensures
        ({
            let near = lines.filter(
                |line: Line|
                    line.insn.mnemonic == Mnemonic::Call && line.insn.op0 == OpKind::NearBranch64,
            );
            let after = counted(f, lines);
            let fits = f.instructions + lines.len() <= u32::MAX && f.calls_out + near.len()
                <= u32::MAX;
            &&& counts_fit(f, lines) == fits
            &&& fits ==> after.instructions == f.instructions + lines.len()
            &&& fits ==> after.calls_out == f.calls_out + near.len()
            &&& after.name == f.name && after.address == f.address && after.size == f.size
            &&& after.exported == f.exported
        }),
{
    lemma_direct_calls(f.address, lines);
}

/// The listing of a function is that of the bytes of the section at its addresses, where the
/// function is not empty, lies inside the section and the file holds those bytes; otherwise there
/// is none.
pub proof fn lemma_function_code(f: binary::FunctionModel, section: image::SectionModel)
    ensures
        function_listing(f, None) == Seq::<Line>::empty(),
        ({
            let start = f.address - section.address;
            let held = section.data is Some && f.size > 0 && start >= 0 && start + f.size
                <= section.size && start + f.size <= section.data->0.len();
            function_listing(f, Some(section)) == if held {
                decode::listing(section.data->0.subrange(start, start + f.size), f.address)
            } else {
                Seq::empty()
            }
        }),
{
}

/// The calls of two lists of functions, one behind the other, are those of the first and then those
/// of the second; a single function makes the near calls in its listing.
pub proof fn lemma_calls_in_turn(
    functions: Seq<binary::FunctionModel>,
    more: Seq<binary::FunctionModel>,
    f: binary::FunctionModel,
    section: Option<image::SectionModel>,
)
    ensures
        calls_of_all(functions + more, section) == calls_of_all(functions, section) + calls_of_all(
            more,
            section,
        ),
        calls_of_all(seq![f], section) == function_listing(f, section).filter(
            |line: Line|
                line.insn.mnemonic == Mnemonic::Call && line.insn.op0 == OpKind::NearBranch64,
        ).map_values(|line: Line| (f.address, line.insn.target)),
{
    lemma_calls_split(functions, more, section);
    let one = seq![f];
    assert(one.drop_last() =~= Seq::empty());
    assert(one.last() == f);
    lemma_direct_calls(f.address, function_listing(f, section));
    reveal_with_fuel(calls_of_all, 2);
    assert(calls_of_all(one, section) =~= listed_calls(f.address, function_listing(f, section)));
}

proof fn lemma_calls_split(
    functions: Seq<binary::FunctionModel>,
    more: Seq<binary::FunctionModel>,
    section: Option<image::SectionModel>,
)
    ensures
        calls_of_all(functions + more, section) == calls_of_all(functions, section) + calls_of_all(
            more,
            section,
        ),
    decreases more.len(),
{
    if more.len() == 0 {
        assert(functions + more =~= functions);
        assert(calls_of_all(functions, section) =~= calls_of_all(functions, section) + calls_of_all(
            more,
            section,
        ));
    } else {
        let all = functions + more;
        assert(all.drop_last() =~= functions + more.drop_last());
        lemma_calls_split(functions, more.drop_last(), section);
        assert(calls_of_all(all, section) =~= calls_of_all(functions, section) + calls_of_all(
            more,
            section,
        ));
    }
}

/// A call is found exactly where one of the functions, standing at the caller's address, has a near
/// call to the target in its code.
pub proof fn lemma_calls_of_functions(
    functions: Seq<binary::FunctionModel>,
    section: Option<image::SectionModel>,
    call: (u64, u64),
)
    ensures
        calls_of_all(functions, section).contains(call) <==> exists|k: int, i: int|
            calls_at(functions, section, call, k, i),
    decreases functions.len(),
{
    if functions.len() > 0 {
        let front = functions.drop_last();
        let f = functions.last();
        let last = functions.len() - 1;
        let lines = function_listing(f, section);
        let before = calls_of_all(front, section);
        let own = listed_calls(f.address, lines);
        let all = calls_of_all(functions, section);
        lemma_calls_of_functions(front, section, call);
        lemma_call_found(f.address, lines, call);
        if all.contains(call) {
            let j = choose|j: int| 0 <= j < all.len() && all[j] == call;
            if j < before.len() {
                assert(before[j] == call);
                let (k, i) = choose|k: int, i: int| calls_at(front, section, call, k, i);
                assert(calls_at(functions, section, call, k, i));
            } else {
                assert(own[j - before.len()] == call);
                let i = choose|i: int|
                    {
                        &&& 0 <= i < lines.len()
                        &&& (#[trigger] lines[i]).insn.mnemonic == Mnemonic::Call
                        &&& lines[i].insn.op0 == OpKind::NearBranch64
                        &&& lines[i].insn.target == call.1
                    };
                assert(calls_at(functions, section, call, last, i));
            }
        }
        if exists|k: int, i: int| calls_at(functions, section, call, k, i) {
            let (k, i) = choose|k: int, i: int| calls_at(functions, section, call, k, i);
            if k < last {
                assert(calls_at(front, section, call, k, i));
                let j = choose|j: int| 0 <= j < before.len() && before[j] == call;
                assert(all[j] == call);
            } else {
                assert(lines[i].insn.target == call.1);
                let j = choose|j: int| 0 <= j < own.len() && own[j] == call;
                assert(all[before.len() + j] == call);
            }
        }
    } else {
        assert(calls_of_all(functions, section) =~= Seq::empty());
    }
}

/// The line `i` in the listing of the function `k` is this near call.
pub open spec fn calls_at(
    functions: Seq<binary::FunctionModel>,
    section: Option<image::SectionModel>,
    call: (u64, u64),
    k: int,
    i: int,
) -> bool {
    let lines = function_listing(functions[k], section);
    &&& 0 <= k < functions.len()
    &&& 0 <= i < lines.len()
    &&& functions[k].address == call.0
    &&& lines[i].insn.mnemonic == Mnemonic::Call
    &&& lines[i].insn.op0 == OpKind::NearBranch64
    &&& lines[i].insn.target == call.1
}

/// The functions can be looked at exactly where the section's end, the end of each function that
/// is not empty and does not start before the section, and all counts can be held.
pub proof fn lemma_analysis_possible(
    functions: Seq<binary::FunctionModel>,
    section: image::SectionModel,
)
    ensures
        ends_fit(functions, None),
        ends_fit(functions, Some(section)) <==> section.address + section.size <= u64::MAX
            && forall|i: int|
            0 <= i < functions.len() && (#[trigger] functions[i]).size > 0 && functions[i].address
                >= section.address ==> functions[i].address + functions[i].size <= u64::MAX,
        all_counts_fit(functions, Some(section)) <==> forall|i: int|
            0 <= i < functions.len() ==> {
                let f = #[trigger] functions[i];
                let lines = function_listing(f, Some(section));
                let near = lines.filter(
                    |line: Line|
                        line.insn.mnemonic == Mnemonic::Call && line.insn.op0
                            == OpKind::NearBranch64,
                );
                f.instructions + lines.len() <= u32::MAX && f.calls_out + near.len() <= u32::MAX
            },
{
    assert forall|i: int| 0 <= i < functions.len() implies {
        let f = #[trigger] functions[i];
        let lines = function_listing(f, Some(section));
        let near = lines.filter(
            |line: Line|
                line.insn.mnemonic == Mnemonic::Call && line.insn.op0 == OpKind::NearBranch64,
        );
        counts_fit(f, lines) == (f.instructions + lines.len() <= u32::MAX && f.calls_out
            + near.len() <= u32::MAX)
    } by {
        lemma_listing_counted(functions[i], function_listing(functions[i], Some(section)));
    }
}

} // verus!
