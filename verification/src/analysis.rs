//! The analysis of a binary, from its bytes to its call graph and what is printed of it.
use std::collections::HashMap;
use vstd::prelude::*;
use vstd::string::StringExecFns;

use crate::binary;
use crate::binary::Function;
use crate::callgraph;
use crate::callgraph::CallGraph;
use crate::calls;
use crate::hardening;
use crate::image;
use crate::image::ObjectImage;
use crate::info;
use crate::info::BinaryInfo;
use crate::report;
use crate::text;

verus! {

broadcast use vstd::std_specs::hash::group_hash_axioms;

/// What is found out about a binary.
pub struct Analysis {
    pub info: BinaryInfo,
    pub functions: Vec<Function>,
    pub plt_names: HashMap<u64, String>,
    pub calls: Vec<(u64, u64)>,
    pub calls_in: HashMap<u64, u32>,
    pub graph: CallGraph,
}

/// The functions of a file, before their code has been looked at.
pub open spec fn listed_functions(file: image::ImageModel) -> Seq<binary::FunctionModel> {
    binary::by_address(binary::symbol_functions(file.symbols))
}

/// The direct calls that the functions of a file make.
pub open spec fn file_calls(file: image::ImageModel) -> Seq<(u64, u64)> {
    calls::calls_of_all(listed_functions(file), file.text)
}

/// The names of the stubs of a file.
pub open spec fn file_plt_names(file: image::ImageModel) -> Map<u64, Seq<char>> {
    binary::stub_names(binary::file_stubs(file), binary::file_slots(file))
}

/// The call graph of a file.
pub open spec fn file_graph(file: image::ImageModel) -> callgraph::GraphModel {
    report::call_graph(
        file_calls(file),
        binary::name_index(listed_functions(file)),
        file_plt_names(file),
    )
}

/// Every address and every count of the analysis can be held.
pub open spec fn analysis_fits(file: image::ImageModel) -> bool {
    &&& calls::ends_fit(listed_functions(file), file.text)
    &&& calls::all_counts_fit(listed_functions(file), file.text)
    &&& report::incoming_fits(file_calls(file))
    &&& report::graph_fits(file_graph(file))
}

/// The analysis is that of the file in these bytes.
pub open spec fn analyses(a: Analysis, file: image::ImageModel, raw: Seq<u8>) -> bool {
    &&& a.info@ == info::info_with(file, hardening::file_hardening(file, raw))
    &&& binary::function_models(a.functions@) == calls::counted_all(
        listed_functions(file),
        file.text,
    )
    &&& text::text_map(a.plt_names@) == file_plt_names(file)
    &&& a.calls@ == file_calls(file)
    &&& a.calls_in@ == report::incoming(file_calls(file))
    &&& a.graph.wf()
    &&& a.graph@ == file_graph(file)
}

/// Analyses a file; `raw` holds its bytes. `None` where an address or a count would overflow.
pub fn analyze(file: &ObjectImage, raw: &[u8]) -> (r: Option<Analysis>)
    ensures
        match r {
            Some(a) => analysis_fits(file@) && analyses(a, file@, raw@),
            None => !analysis_fits(file@),
        },
{
    let info = info::load_info(file, raw);
    let mut functions = binary::load_functions(file);
    let plt_names = binary::resolve_plt(file);
    let by_addr = binary::index_by_address(functions.as_slice());
    let calls = match calls::try_analyze_functions(file, &mut functions) {
        Some(calls) => calls,
        None => {
            return None;
        },
    };
    let calls_in = match report::count_incoming(&calls) {
        Some(calls_in) => calls_in,
        None => {
            return None;
        },
    };
    match report::build_call_graph(&calls, &by_addr, &plt_names) {
        Some(graph) => Some(Analysis { info, functions, plt_names, calls, calls_in, graph }),
        None => None,
    }
}

/// What is printed of an analysis: the passport, unless it is left out, the table of the functions
/// and the closing lines.
pub open spec fn printed(path: Seq<char>, a: Analysis, no_info: bool) -> Seq<char> {
    (if no_info {
        Seq::empty()
    } else {
        "=== "@ + path + " ===\n"@ + info::info_text(a.info@)
    }) + report::table_text(binary::function_models(a.functions@), a.calls_in@)
        + report::summary_text(
        path,
        a.functions@.len(),
        a.plt_names@.len(),
        a.calls@.len(),
        a.graph@.nodes.len(),
        a.graph@.edges.len(),
    )
}

impl Analysis {
    /// What is printed of the analysis of the binary at `path`.
    pub fn to_text(&self, path: &str, no_info: bool) -> (out: String)
        ensures
            out@ == printed(path@, *self, no_info),
    {
        let mut out = String::new();
        if !no_info {
            out.append("=== ");
            out.append(path);
            out.append(" ===\n");
            out.append(self.info.to_text().as_str());
        }
        out.append(report::function_table(self.functions.as_slice(), &self.calls_in).as_str());
        out.append(
            report::summary(
                path,
                self.functions.len(),
                self.plt_names.len(),
                self.calls.len(),
                self.graph.node_count(),
                self.graph.edge_count(),
            ).as_str(),
        );
        assert(out@ =~= printed(path@, *self, no_info));
        out
    }
}

/// Every direct call that was found is an edge of the graph, and was counted into the function that
/// makes it.
pub proof fn lemma_calls_accounted(file: image::ImageModel)
    requires
        analysis_fits(file),
        file.symbols.len() <= usize::MAX,
    ensures
        file_graph(file).edges.len() == file_calls(file).len(),
        calls::total_calls_out(calls::counted_all(listed_functions(file), file.text))
            == file_calls(file).len(),
{
    let functions = listed_functions(file);
    report::lemma_every_call_drawn(functions, file.text, file_plt_names(file));
    calls::lemma_calls_counted(functions, file.text);
    binary::lemma_functions_listed(file.symbols);
    assert forall|i: int| 0 <= i < functions.len() implies (#[trigger] functions[i]).calls_out
        == 0 by {
        assert(functions.contains(functions[i]));
        let before = binary::symbol_functions(file.symbols);
        assert(before.contains(functions[i]));
        let k = choose|k: int| 0 <= k < before.len() && before[k] == functions[i];
        assert(before[k].calls_out == 0);
    }
    lemma_nothing_counted(functions);
}

proof fn lemma_nothing_counted(functions: Seq<binary::FunctionModel>)
    requires
        forall|i: int| 0 <= i < functions.len() ==> (#[trigger] functions[i]).calls_out == 0,
    ensures
        calls::total_calls_out(functions) == 0,
    decreases functions.len(),
{
    if functions.len() > 0 {
        let front = functions.drop_last();
        assert forall|i: int| 0 <= i < front.len() implies (#[trigger] front[i]).calls_out == 0 by {
            assert(front[i] == functions[i]);
        }
        lemma_nothing_counted(front);
        assert(functions[functions.len() - 1].calls_out == 0);
    }
}

/// An analysis is of the functions in the static symbol table, by their addresses, with their code
/// counted; of the calls in that code; of the stubs with their names; of how often each target is
/// called; and of the graph of those calls, in which a caller goes by the last name at its address.
pub proof fn lemma_analysis(a: Analysis, file: image::ImageModel, raw: Seq<u8>)
    requires
        analyses(a, file, raw),
    ensures
        ({
            let listed = binary::by_address(binary::symbol_functions(file.symbols));
            let found = calls::calls_of_all(listed, file.text);
            let plt = binary::stub_names(binary::file_stubs(file), binary::file_slots(file));
            &&& a.info@ == info::info_with(file, hardening::file_hardening(file, raw))
            &&& binary::function_models(a.functions@) == listed.map_values(
                |f: binary::FunctionModel|
                    calls::counted(f, calls::function_listing(f, file.text)),
            )
            &&& text::text_map(a.plt_names@) == plt
            &&& a.calls@ == found
            &&& a.calls_in@ == report::incoming(found)
            &&& a.graph@ == report::call_graph(found, binary::name_index(listed), plt)
        }),
{
}

/// An analysis is given up exactly where the functions cannot be looked at, a target is called more
/// often than a count can hold, or the graph has more nodes or edges than can be numbered.
pub proof fn lemma_analysis_fits(file: image::ImageModel)
    ensures
        ({
            let listed = binary::by_address(binary::symbol_functions(file.symbols));
            let found = calls::calls_of_all(listed, file.text);
            let graph = report::call_graph(
                found,
                binary::name_index(listed),
                binary::stub_names(binary::file_stubs(file), binary::file_slots(file)),
            );
            analysis_fits(file) <==> calls::ends_fit(listed, file.text) && calls::all_counts_fit(
                listed,
                file.text,
            ) && (forall|target: u64| #[trigger] report::calls_to(found, target) <= u32::MAX)
                && graph.nodes.len() <= 0xffff_ffff && graph.edges.len() <= 0xffff_ffff
        }),
{
    report::lemma_incoming_held(file_calls(file));
}

/// What is printed is the passport under the path, unless it is left out, then the table, then the
/// closing lines with the numbers of the analysis.
pub proof fn lemma_printed(path: Seq<char>, a: Analysis)
    ensures
        ({
            let rest = report::table_text(binary::function_models(a.functions@), a.calls_in@)
                + report::summary_text(
                path,
                a.functions@.len(),
                a.plt_names@.len(),
                a.calls@.len(),
                a.graph@.nodes.len(),
                a.graph@.edges.len(),
            );
            &&& printed(path, a, true) == rest
            &&& printed(path, a, false) == "=== "@ + path + " ===\n"@ + info::info_text(a.info@)
                + rest
        }),
{
    let table = report::table_text(binary::function_models(a.functions@), a.calls_in@);
    let closing = report::summary_text(
        path,
        a.functions@.len(),
        a.plt_names@.len(),
        a.calls@.len(),
        a.graph@.nodes.len(),
        a.graph@.edges.len(),
    );
    let head = "=== "@ + path + " ===\n"@ + info::info_text(a.info@);
    assert(printed(path, a, true) =~= table + closing);
    assert(printed(path, a, false) =~= head + (table + closing));
}

} // verus!
