//! One passphrase generation request, end to end: sample a prefix per
//! position, build the layered graph, search it, and assemble the
//! password and passphrase strings.

use crate::assemble::{
    contains_digit, contains_symbol, convert_prefixes_to_password_and_passphrase,
    lemma_formatting_charsets, lemma_insertion_charset, spec_insertion,
};
use crate::builder::{build_passphrase_graph, spec_total_nodes};
use crate::dict::{is_dict_word, is_known_prefix, Dictionary};
use crate::error::GraphError;
use crate::graph::{exists_path, is_path, lemma_path_levels, EphemeralPassphraseGraph};
use crate::rng::random_below;
use crate::search::shortest_path_multiple;
use vstd::prelude::*;
use vstd::string::StringExecFns;

verus! {

/// Method used to generate the password.
#[derive(Debug, Clone, Copy, PartialEq, Eq, Structural)]
pub enum GenerationMethod {
    /// Generated using a language model.
    LanguageModel,
    /// Generated using the graph search algorithm.
    GraphSearch,
    /// Generated at random.
    Random,
}

impl GenerationMethod {
    /// The method's display name.
    pub fn label(&self) -> (s: &'static str)
        ensures
            s@ == self.spec_label(),
    {
        match self {
            GenerationMethod::LanguageModel => "Language Model",
            GenerationMethod::GraphSearch => "Graph Search",
            GenerationMethod::Random => "Random",
        }
    }

    /// The name `label` returns for each method.
    pub open spec fn spec_label(&self) -> Seq<char> {
        match self {
            GenerationMethod::LanguageModel => "Language Model"@,
            GenerationMethod::GraphSearch => "Graph Search"@,
            GenerationMethod::Random => "Random"@,
        }
    }
}

/// A generation request.
pub struct GeneratePassphraseInput {
    /// How many word positions the passphrase has.
    pub passphrase_length: i32,
    /// Whether one position is upper-cased.
    pub add_capital_letter: bool,
    /// Whether a random digit is inserted.
    pub add_digit: bool,
    /// Whether a random symbol is inserted.
    pub add_symbol: bool,
}

/// A finished generation.
#[derive(Debug)]
pub struct GeneratePassphraseOutput {
    /// The dense password: the prefixes run together.
    pub password: String,
    /// The readable passphrase: the words joined by spaces.
    pub passphrase: String,
    /// The sampled prefixes, one per position.
    pub prefixes: Vec<String>,
    /// The chosen words, one per position.
    pub words: Vec<String>,
    /// The total cost of the winning path.
    pub cost: i64,
}

/// Samples one prefix index per passphrase position, uniformly from
/// the known prefixes.
fn get_random_prefixes(dict: &Dictionary, length: usize) -> (r: Vec<usize>)
    requires
        dict.wf(),
        1 <= dict.spec_prefix_count(),
    ensures
        r@.len() == length,
        forall|i: int| 0 <= i < r@.len() ==> #[trigger] r@[i] < dict.spec_prefix_count(),
{
    let count = dict.prefix_count();
    let mut out: Vec<usize> = Vec::new();
    let mut i: usize = 0;
    while i < length
        invariant
            dict.wf(),
            1 <= count == dict.spec_prefix_count(),
            i <= length,
            out@.len() == i,
            forall|m: int| 0 <= m < out@.len() ==> #[trigger] out@[m] < dict.spec_prefix_count(),
        decreases length - i,
    {
        let idx = random_below(count as u64) as usize;
        out.push(idx);
        i = i + 1;
    }
    out
}

/// Prepending an edge to a path gives a path.
proof fn lemma_path_prepend(g: &EphemeralPassphraseGraph, p: Seq<u32>, s: u32, b: u32, t: u32)
    requires
        g.wf(),
        is_path(g, p, b, t),
        s < g.spec_node_count(),
        g.spec_has_edge(s as int, b as int),
    ensures
        is_path(g, seq![s] + p, s, t),
{
    let q = seq![s] + p;
    assert(q[0] == s);
    assert(q.last() == p.last());
    assert forall|m: int| 0 <= m < q.len() implies #[trigger] q[m] < g.spec_node_count() by {
        if m > 0 {
            assert(q[m] == p[m - 1]);
        }
    }
    assert forall|m: int| 0 <= m < q.len() - 1 implies g.spec_has_edge(
        #[trigger] q[m] as int,
        q[m + 1] as int,
    ) by {
        if m == 0 {
            assert(q[1] == p[0]);
        } else {
            assert(q[m] == p[m - 1]);
            assert(q[m + 1] == p[m]);
        }
    }
}

/// In a graph whose consecutive levels are completely connected and
/// whose non-final nodes all have successors, every node reaches every
/// node of any deeper level.
proof fn lemma_levels_connect(g: &EphemeralPassphraseGraph, l: int, s: u32, t: u32)
    requires
        g.wf(),
        forall|n: int| 0 <= n < g.spec_node_count() ==> #[trigger] g.spec_level_of(n) < l,
        forall|a: int|
            0 <= a < g.spec_node_count() && #[trigger] g.spec_level_of(a) + 1 < l ==> exists|b: u32|
                b < g.spec_node_count() && #[trigger] g.spec_has_edge(a, b as int),
        forall|a: int, b: int|
            0 <= a < g.spec_node_count() && 0 <= b < g.spec_node_count()
                && #[trigger] g.spec_level_of(b) == #[trigger] g.spec_level_of(a) + 1
                ==> g.spec_has_edge(a, b),
        forall|a: int, b: int|
            0 <= a < g.spec_node_count() && 0 <= b < g.spec_node_count()
                && #[trigger] g.spec_has_edge(a, b) ==> g.spec_level_of(b) == g.spec_level_of(a)
                + 1,
        s < g.spec_node_count(),
        t < g.spec_node_count(),
        g.spec_level_of(s as int) < g.spec_level_of(t as int),
    ensures
        exists_path(g, s, t),
    decreases g.spec_level_of(t as int) - g.spec_level_of(s as int),
{
    if g.spec_level_of(s as int) + 1 == g.spec_level_of(t as int) {
        assert(g.spec_has_edge(s as int, t as int));
        let p = seq![s, t];
        assert(is_path(g, p, s, t)) by {
            assert(p[0] == s);
            assert(p.last() == t);
            assert(p[1] == t);
        }
    } else {
        assert(g.spec_level_of(s as int) + 1 < g.spec_level_of(t as int));
        assert(g.spec_level_of(t as int) < l);
        let b = choose|b: u32|
            b < g.spec_node_count() && #[trigger] g.spec_has_edge(s as int, b as int);
        assert(g.spec_level_of(b as int) == g.spec_level_of(s as int) + 1);
        lemma_levels_connect(g, l, b, t);
        let p = choose|p: Seq<u32>| is_path(g, p, b, t);
        lemma_path_prepend(g, p, s, b, t);
        assert(is_path(g, seq![s] + p, s, t));
    }
}

/// A slice of a digit-free character sequence is digit-free, and the
/// same for symbols.
proof fn lemma_subrange_charset(s: Seq<char>, a: int, b: int)
    requires
        0 <= a <= b <= s.len(),
    ensures
        !contains_digit(s) ==> !contains_digit(s.subrange(a, b)),
        !contains_symbol(s) ==> !contains_symbol(s.subrange(a, b)),
{
    if !contains_digit(s) && contains_digit(s.subrange(a, b)) {
        let i = choose|i: int|
            0 <= i < s.subrange(a, b).len() && crate::assemble::is_digit_char(s.subrange(a, b)[i]);
        assert(s.subrange(a, b)[i] == s[a + i]);
    }
    if !contains_symbol(s) && contains_symbol(s.subrange(a, b)) {
        let i = choose|i: int|
            0 <= i < s.subrange(a, b).len() && crate::assemble::is_symbol_char(s.subrange(a, b)[i]);
        assert(s.subrange(a, b)[i] == s[a + i]);
    }
}

/// Generates a passphrase for already chosen prefixes: builds the
/// layered graph, searches it, and formats the winning path.
#[verifier::rlimit(100)]
pub fn generate_with_prefix_ids(
    dict: &Dictionary,
    prefix_ids: &Vec<usize>,
    add_digit: bool,
    add_capital_letter: bool,
    add_symbol: bool,
) -> (r: Result<GeneratePassphraseOutput, GraphError>)
    requires
        dict.wf(),
        1 <= prefix_ids@.len() <= u32::MAX,
        forall|t: int|
            0 <= t < prefix_ids@.len() ==> #[trigger] prefix_ids@[t] < dict.spec_prefix_count(),
    ensures
        match r {
            Ok(out) => {
                let l = prefix_ids@.len() as int;
                &&& out.prefixes@.len() == l
                &&& out.words@.len() == l
                &&& forall|i: int|
                    0 <= i < l ==> #[trigger] out.prefixes@[i]@ == dict.spec_prefix_at(
                        prefix_ids@[i] as int,
                    )
                &&& forall|i: int| 0 <= i < l ==> is_dict_word(dict, #[trigger] out.words@[i]@)
                &&& forall|i: int|
                    0 <= i < l ==> (#[trigger] out.words@[i]@).len() >= 3 && out.words@[i]@.subrange(
                        0,
                        3,
                    ) == out.prefixes@[i]@
                &&& out.cost >= 0
                &&& (add_digit ==> contains_digit(out.password@))
                &&& (add_symbol ==> contains_symbol(out.password@))
                &&& ((!add_digit && forall|w: int|
                    1 <= w <= dict.spec_word_count() ==> !contains_digit(
                        #[trigger] dict.spec_word_at(w),
                    )) ==> !contains_digit(out.password@))
                &&& ((!add_symbol && forall|w: int|
                    1 <= w <= dict.spec_word_count() ==> !contains_symbol(
                        #[trigger] dict.spec_word_at(w),
                    )) ==> !contains_symbol(out.password@))
            },
            Err(e) => {
                ||| (e is BuildError && spec_total_nodes(dict, prefix_ids@) > u32::MAX)
                ||| (e is SearchError && prefix_ids@.len() == 1 && dict.spec_bucket(
                    prefix_ids@[0] as int,
                ).len() > 1)
            },
        },
{
    let l = prefix_ids.len();
    let (g, sources, sinks) = match build_passphrase_graph(dict, prefix_ids) {
        Ok(parts) => parts,
        Err(e) => {
            return Err(e);
        },
    };
    proof {
        crate::builder::lemma_total_nodes_mono(dict, prefix_ids@, 0, 1);
        crate::builder::lemma_total_nodes_mono(dict, prefix_ids@, 1, l as int);
        crate::builder::lemma_total_nodes_mono(dict, prefix_ids@, 0, l as int - 1);
        assert(prefix_ids@.subrange(0, l as int) =~= prefix_ids@);
        assert(prefix_ids@.subrange(0, 0) =~= Seq::<usize>::empty());
        assert(spec_total_nodes(dict, Seq::<usize>::empty()) == 0);
        assert(prefix_ids@.subrange(0, 1).drop_last() =~= Seq::<usize>::empty());
        assert(prefix_ids@.subrange(0, 1).last() == prefix_ids@[0]);
        assert(spec_total_nodes(dict, prefix_ids@.subrange(0, 1)) == spec_total_nodes(
            dict,
            Seq::<usize>::empty(),
        ) + dict.spec_bucket(prefix_ids@[0] as int).len());
        assert(prefix_ids@.drop_last() =~= prefix_ids@.subrange(0, l as int - 1));
        assert(prefix_ids@.last() == prefix_ids@[l as int - 1]);
        assert(spec_total_nodes(dict, prefix_ids@) == spec_total_nodes(
            dict,
            prefix_ids@.subrange(0, l as int - 1),
        ) + dict.spec_bucket(prefix_ids@[l as int - 1] as int).len());
        assert(sources@.len() <= u32::MAX);
        assert(sinks@.len() <= u32::MAX);
        // every sampled source connects to every sampled sink, unless a
        // lone level leaves two distinct endpoints with no edge at all
        if l >= 2 {
            assert forall|si: int, ti: int|
                0 <= si < sources@.len() && 0 <= ti < sinks@.len() implies exists_path(
                &g,
                #[trigger] sources@[si],
                #[trigger] sinks@[ti],
            ) by {
                lemma_levels_connect(&g, l as int, sources@[si], sinks@[ti]);
            }
        }
        if l == 1 && dict.spec_bucket(prefix_ids@[0] as int).len() == 1 {
            assert(g.spec_node_count() == 1);
            assert forall|si: int, ti: int|
                0 <= si < sources@.len() && 0 <= ti < sinks@.len() implies exists_path(
                &g,
                #[trigger] sources@[si],
                #[trigger] sinks@[ti],
            ) by {
                assert(sources@[si] == 0 && sinks@[ti] == 0);
                let p = seq![sources@[si]];
                assert(is_path(&g, p, sources@[si], sinks@[ti]));
            }
        }
    }
    let found = shortest_path_multiple(&g, &sources, &sinks);
    let (path, cost) = match found {
        Some(pc) => pc,
        None => {
            proof {
                if l >= 2 || (l == 1 && dict.spec_bucket(prefix_ids@[0] as int).len() == 1) {
                    assert(false);
                }
            }
            return Err(GraphError::SearchError(String::from_str("no path found")));
        },
    };
    let ghost spick = choose|s: u32, t: u32|
        sources@.contains(s) && sinks@.contains(t) && is_path(&g, path@, s, t) && cost as int
            == crate::graph::path_cost(&g, path@);
    proof {
        let (s, t) = spick;
        let si = choose|si: int| 0 <= si < sources@.len() && sources@[si] == s;
        let ti = choose|ti: int| 0 <= ti < sinks@.len() && sinks@[ti] == t;
        lemma_path_levels(&g, path@, s, t);
        assert(g.spec_level_of(s as int) == 0);
        assert(g.spec_level_of(t as int) == l - 1);
        assert(path@.len() == l);
    }
    // map the winning nodes back to words
    let mut words_out: Vec<String> = Vec::new();
    let mut i: usize = 0;
    while i < path.len()
        invariant
            dict.wf(),
            g.wf(),
            l == prefix_ids@.len(),
            forall|t: int|
                0 <= t < prefix_ids@.len() ==> #[trigger] prefix_ids@[t]
                    < dict.spec_prefix_count(),
            path@.len() == l,
            forall|m: int| 0 <= m < path@.len() ==> #[trigger] path@[m] < g.spec_node_count(),
            forall|m: int|
                0 <= m < path@.len() ==> #[trigger] g.spec_level_of(path@[m] as int) == m,
            forall|n: int|
                0 <= n < g.spec_node_count() ==> 1 <= #[trigger] g.spec_word_of(n)
                    <= dict.spec_word_count(),
            forall|n: int|
                0 <= n < g.spec_node_count() ==> dict.spec_bucket(
                    prefix_ids@[#[trigger] g.spec_level_of(n) as int] as int,
                ).contains(g.spec_word_of(n)),
            i <= l,
            words_out@.len() == i,
            forall|m: int|
                0 <= m < i ==> #[trigger] words_out@[m]@ == dict.spec_word_at(
                    g.spec_word_of(path@[m] as int) as int,
                ),
        decreases path@.len() - i,
    {
        let node = path[i];
        let w = g.word_of(node);
        words_out.push(dict.word_at(w).clone());
        i = i + 1;
    }
    // collect the prefix strings
    let mut prefixes_out: Vec<String> = Vec::new();
    let mut i2: usize = 0;
    while i2 < l
        invariant
            dict.wf(),
            l == prefix_ids@.len(),
            forall|t: int|
                0 <= t < prefix_ids@.len() ==> #[trigger] prefix_ids@[t]
                    < dict.spec_prefix_count(),
            i2 <= l,
            prefixes_out@.len() == i2,
            forall|m: int|
                0 <= m < i2 ==> #[trigger] prefixes_out@[m]@ == dict.spec_prefix_at(
                    prefix_ids@[m] as int,
                ),
        decreases l - i2,
    {
        prefixes_out.push(dict.prefix_at(prefix_ids[i2]).clone());
        i2 = i2 + 1;
    }
    // draw the formatting choices and render both strings
    let chosen = random_below(l as u64) as usize;
    let insert_before = random_below(2) == 0;
    let digit_idx = random_below(10) as u8;
    let symbol_idx = random_below(6) as u8;
    let digit_first = random_below(2) == 0;
    let (password, passphrase) = convert_prefixes_to_password_and_passphrase(
        &prefixes_out,
        &words_out,
        add_digit,
        add_capital_letter,
        add_symbol,
        chosen,
        insert_before,
        digit_idx,
        symbol_idx,
        digit_first,
    );
    let out_cost: i64 = if cost > 0x7FFF_FFFF_FFFF_FFFF {
        i64::MAX
    } else {
        cost as i64
    };
    proof {
        let ins = spec_insertion(
            add_digit,
            add_symbol,
            digit_idx as int,
            symbol_idx as int,
            digit_first,
        );
        lemma_insertion_charset(
            add_digit,
            add_symbol,
            digit_idx as int,
            symbol_idx as int,
            digit_first,
        );
        lemma_formatting_charsets(
            prefixes_out@.map_values(|w: String| w@),
            chosen as int,
            add_capital_letter,
            ins,
            insert_before,
        );
        // each output word is the dictionary word behind its path node
        assert forall|m: int| 0 <= m < l implies is_dict_word(dict, #[trigger] words_out@[m]@) by {
            let w = g.spec_word_of(path@[m] as int);
            assert(dict.spec_word_at(w as int) == words_out@[m]@);
        }
        assert forall|m: int| 0 <= m < l implies (#[trigger] words_out@[m]@).len() >= 3
            && words_out@[m]@.subrange(0, 3) == prefixes_out@[m]@ by {
            let w = g.spec_word_of(path@[m] as int);
            assert(g.spec_level_of(path@[m] as int) == m);
            assert(dict.spec_bucket(prefix_ids@[m] as int).contains(w));
            let k = choose|k: int|
                0 <= k < dict.spec_bucket(prefix_ids@[m] as int).len() && dict.spec_bucket(
                    prefix_ids@[m] as int,
                )[k] == w;
            assert(dict.spec_word_at(w as int).len() >= 3);
            assert(dict.spec_word_at(w as int).subrange(0, 3) == dict.spec_prefix_at(
                prefix_ids@[m] as int,
            ));
        }
        // the prefixes inherit the words' character sets
        let pv = prefixes_out@.map_values(|w: String| w@);
        if !add_digit && (forall|w: int|
            1 <= w <= dict.spec_word_count() ==> !contains_digit(#[trigger] dict.spec_word_at(w))) {
            assert forall|m: int| 0 <= m < pv.len() implies !contains_digit(#[trigger] pv[m]) by {
                let w = g.spec_word_of(path@[m] as int);
                assert(!contains_digit(dict.spec_word_at(w as int)));
                lemma_subrange_charset(dict.spec_word_at(w as int), 0, 3);
                assert(pv[m] == prefixes_out@[m]@);
                assert(words_out@[m]@.subrange(0, 3) == prefixes_out@[m]@);
                assert(words_out@[m]@ == dict.spec_word_at(w as int));
            }
            assert(!contains_digit(ins));
            assert(!contains_digit(password@));
        }
        if !add_symbol && (forall|w: int|
            1 <= w <= dict.spec_word_count() ==> !contains_symbol(#[trigger] dict.spec_word_at(w))) {
            assert forall|m: int| 0 <= m < pv.len() implies !contains_symbol(#[trigger] pv[m]) by {
                let w = g.spec_word_of(path@[m] as int);
                assert(!contains_symbol(dict.spec_word_at(w as int)));
                lemma_subrange_charset(dict.spec_word_at(w as int), 0, 3);
                assert(pv[m] == prefixes_out@[m]@);
                assert(words_out@[m]@.subrange(0, 3) == prefixes_out@[m]@);
                assert(words_out@[m]@ == dict.spec_word_at(w as int));
            }
            assert(!contains_symbol(ins));
            assert(!contains_symbol(password@));
        }
    }
    Ok(
        GeneratePassphraseOutput {
            password,
            passphrase,
            prefixes: prefixes_out,
            words: words_out,
            cost: out_cost,
        },
    )
}

/// A strictly increasing bucket grows at least one per step.
proof fn lemma_increasing_bound(b: Seq<u32>, k: int)
    requires
        0 <= k < b.len(),
        forall|i: int, j: int| 0 <= i < j < b.len() ==> #[trigger] b[i] < #[trigger] b[j],
    ensures
        b[k] >= b[0] + k,
    decreases k,
{
    if k > 0 {
        lemma_increasing_bound(b, k - 1);
        assert(b[k - 1] < b[k]);
    }
}

/// No prefix bucket outgrows the dictionary.
proof fn lemma_bucket_le_word_count(dict: &Dictionary, p: int)
    requires
        dict.wf(),
        0 <= p < dict.spec_prefix_count(),
    ensures
        dict.spec_bucket(p).len() <= dict.spec_word_count(),
{
    let b = dict.spec_bucket(p);
    if b.len() > 0 {
        lemma_increasing_bound(b, b.len() - 1);
        assert(1 <= b[0]);
        assert(b[b.len() - 1] <= dict.spec_word_count());
    }
}

/// The graph never holds more nodes than levels times words.
proof fn lemma_total_nodes_le(dict: &Dictionary, pids: Seq<usize>)
    requires
        dict.wf(),
        forall|t: int| 0 <= t < pids.len() ==> #[trigger] pids[t] < dict.spec_prefix_count(),
    ensures
        spec_total_nodes(dict, pids) <= pids.len() * dict.spec_word_count(),
    decreases pids.len(),
{
    if pids.len() > 0 {
        assert forall|t: int| 0 <= t < pids.drop_last().len() implies #[trigger] pids.drop_last()[t]
            < dict.spec_prefix_count() by {
            assert(pids.drop_last()[t] == pids[t]);
        }
        lemma_total_nodes_le(dict, pids.drop_last());
        lemma_bucket_le_word_count(dict, pids.last() as int);
        assert(pids.len() * dict.spec_word_count() == (pids.len() - 1) * dict.spec_word_count()
            + dict.spec_word_count()) by (nonlinear_arith);
    }
}

/// Generates one passphrase: samples a prefix per position, builds and
/// searches the graph, and formats the winning path. The request is
/// rejected when the dictionary knows no prefix (treated as no path),
/// and the bounded random search may fail to connect a lone level with
/// several candidate words.
pub fn generate_passphrase(dict: &Dictionary, input: &GeneratePassphraseInput) -> (r: Result<
    GeneratePassphraseOutput,
    GraphError,
>)
    requires
        dict.wf(),
        input.passphrase_length >= 1,
    ensures
        match r {
            Ok(out) => {
                let l = input.passphrase_length as int;
                &&& out.prefixes@.len() == l
                &&& out.words@.len() == l
                &&& forall|i: int|
                    0 <= i < l ==> is_known_prefix(dict, #[trigger] out.prefixes@[i]@)
                &&& forall|i: int| 0 <= i < l ==> is_dict_word(dict, #[trigger] out.words@[i]@)
                &&& forall|i: int|
                    0 <= i < l ==> (#[trigger] out.words@[i]@).len() >= 3 && out.words@[i]@.subrange(
                        0,
                        3,
                    ) == out.prefixes@[i]@
                &&& out.cost >= 0
                &&& (input.add_digit ==> contains_digit(out.password@))
                &&& (input.add_symbol ==> contains_symbol(out.password@))
                &&& ((!input.add_digit && forall|w: int|
                    1 <= w <= dict.spec_word_count() ==> !contains_digit(
                        #[trigger] dict.spec_word_at(w),
                    )) ==> !contains_digit(out.password@))
                &&& ((!input.add_symbol && forall|w: int|
                    1 <= w <= dict.spec_word_count() ==> !contains_symbol(
                        #[trigger] dict.spec_word_at(w),
                    )) ==> !contains_symbol(out.password@))
            },
            Err(e) => {
                ||| (e is SearchError && dict.spec_prefix_count() == 0)
                ||| (e is BuildError && (input.passphrase_length as int) * dict.spec_word_count()
                    > u32::MAX)
                ||| (e is SearchError && input.passphrase_length == 1 && exists|p: int|
                    0 <= p < dict.spec_prefix_count() && dict.spec_bucket(p).len() > 1)
            },
        },
        dict.spec_prefix_count() == 0 ==> r is Err,
        (dict.spec_prefix_count() >= 1 && input.passphrase_length >= 2 && (
        input.passphrase_length as int) * dict.spec_word_count() <= u32::MAX) ==> r is Ok,
        (dict.spec_prefix_count() >= 1 && input.passphrase_length == 1 && forall|p: int|
            0 <= p < dict.spec_prefix_count() ==> dict.spec_bucket(p).len() == 1) ==> r is Ok,
{
    if dict.prefix_count() == 0 {
        return Err(GraphError::SearchError(String::from_str("no prefixes in dictionary")));
    }
    let l = input.passphrase_length as usize;
    let prefix_ids = get_random_prefixes(dict, l);
    proof {
        lemma_total_nodes_le(dict, prefix_ids@);
    }
    let inner = generate_with_prefix_ids(
        dict,
        &prefix_ids,
        input.add_digit,
        input.add_capital_letter,
        input.add_symbol,
    );
    match inner {
        Ok(out) => {
            proof {
                assert forall|i: int| 0 <= i < l as int implies is_known_prefix(
                    dict,
                    #[trigger] out.prefixes@[i]@,
                ) by {
                    assert(out.prefixes@[i]@ == dict.spec_prefix_at(prefix_ids@[i] as int));
                }
            }
            Ok(out)
        },
        Err(e) => {
            proof {
                if e is SearchError {
                    assert(prefix_ids@.len() == 1 && dict.spec_bucket(
                        prefix_ids@[0] as int,
                    ).len() > 1);
                    assert(0 <= (prefix_ids@[0] as int) < dict.spec_prefix_count()
                        && dict.spec_bucket(prefix_ids@[0] as int).len() > 1);
                }
            }
            Err(e)
        },
    }
}

} // verus!
