//! The graph of all nodes, one petgraph graph per layer: building it from the
//! files' headers, checking it, and reading it out in order.
use crate::config::Config;
use crate::exceptions::{decimal, FileNodeError, TopCatError};
use crate::file_node::{
    contains_name, copy_names, lower_of, lowercase, node_of, parse_header, starts, starts_with, views,
    FileNode, HeaderModel,
};
use crate::layer_graph::{
    add_edge, add_node, dot_of, dot_text, edge_count, edges_in_range, elementary_cycles, lemma_walk_in_range, graph_edges,
    graph_nodes, has_edge, is_acyclic, is_closed_walk, is_cyclic, lemma_has_edge_push, lemma_push_new_edge, new_graph,
    node_count, node_weight, MAX_GRAPH_ITEMS,
};
use crate::stable_topo::{
    lemma_seq_lt_transitive, seq_lt, emits_all, greedy_order, key_seqs, keys_distinct, lemma_greedy_order_unique, respects_edges,
    stable_order,
};
use petgraph::graph::DiGraph;
use vstd::prelude::*;

verus! {

/// A copy of an optional list of strings.
pub fn copy_option(v: &Option<Vec<String>>) -> (r: Option<Vec<String>>)
    ensures
        r is Some <==> v is Some,
        r is Some ==> r->Some_0@ == v->Some_0@,
{
    match v {
        Some(x) => Some(copy_names(x)),
        None => None,
    }
}

/// The texts of a node list's names.
pub open spec fn names_of(nodes: Seq<FileNode>) -> Seq<Seq<char>> {
    nodes.map_values(|n: FileNode| n.name@)
}

/// The index of the first entry of `layers` from `i` on equal to `l`, if any.
pub open spec fn first_index_from(layers: Seq<Seq<char>>, l: Seq<char>, i: int) -> Option<int>
    decreases layers.len() - i,
{
    if i < 0 || i >= layers.len() {
        None
    } else if layers[i] == l {
        Some(i)
    } else {
        first_index_from(layers, l, i + 1)
    }
}

/// The index of the first entry of `layers` equal to `l`, if any.
pub open spec fn first_index(layers: Seq<Seq<char>>, l: Seq<char>) -> Option<int> {
    first_index_from(layers, l, 0)
}

/// What `first_index_from` finds stands at an index from `i` on and holds `l`.
pub proof fn lemma_first_index_from(layers: Seq<Seq<char>>, l: Seq<char>, i: int)
    requires
        0 <= i,
    ensures
        first_index_from(layers, l, i) matches Some(x) ==> i <= x < layers.len() && layers[x] == l,
        first_index_from(layers, l, i) is None ==> forall|j: int| i <= j < layers.len() ==> layers[j] != l,
    decreases layers.len() - i,
{
    if i < layers.len() && layers[i] != l {
        lemma_first_index_from(layers, l, i + 1);
    }
}

/// Where `l` first stands in `layers`.
pub fn layer_index(layers: &Vec<String>, l: &String) -> (r: Option<usize>)
    ensures
        r is Some <==> first_index(views(layers@), l@) is Some,
        r is Some ==> first_index(views(layers@), l@) == Some(r->Some_0 as int),
        r is Some ==> r->Some_0 < layers@.len() && layers@[r->Some_0 as int]@ == l@,
        r is None ==> !views(layers@).contains(l@),
{
    let ghost ls = views(layers@);
    let mut i: usize = 0;
    while i < layers.len()
        invariant
            i <= layers@.len(),
            ls == views(layers@),
            forall|j: int| 0 <= j < i ==> ls[j] != l@,
            first_index(ls, l@) == first_index_from(ls, l@, i as int),
        decreases layers@.len() - i,
    {
        if layers[i] == *l {
            proof {
                assert(ls[i as int] == l@);
            }
            return Some(i);
        }
        proof {
            assert(ls[i as int] != l@);
        }
        i = i + 1;
    }
    proof {
        assert(!ls.contains(l@));
    }
    None
}

/// `parts` joined, with `sep` between each two.
pub open spec fn join_spec(parts: Seq<Seq<char>>, sep: Seq<char>) -> Seq<char>
    decreases parts.len(),
{
    if parts.len() == 0 {
        Seq::empty()
    } else if parts.len() == 1 {
        parts[0]
    } else {
        join_spec(parts.drop_last(), sep) + sep + parts.last()
    }
}

/// `parts` joined, with `sep` between each two.
pub fn join(parts: &Vec<String>, sep: &str) -> (r: String)
    ensures
        r@ == join_spec(views(parts@), sep@),
{
    let mut r = String::new();
    let mut i: usize = 0;
    while i < parts.len()
        invariant
            i <= parts@.len(),
            r@ == join_spec(views(parts@.subrange(0, i as int)), sep@),
        decreases parts@.len() - i,
    {
        let ghost prev = views(parts@.subrange(0, i as int));
        if i > 0 {
            r.append(sep);
        }
        r.append(parts[i].as_str());
        proof {
            let next = views(parts@.subrange(0, i + 1));
            assert(next.drop_last() =~= prev);
            assert(next.last() == parts@[i as int]@);
            if i == 0 {
                assert(r@ =~= join_spec(next, sep@));
            }
        }
        i = i + 1;
    }
    proof {
        assert(parts@.subrange(0, i as int) =~= parts@);
    }
    r
}

/// The message of a rejected header with more than one name.
pub open spec fn too_many_names_text(names: Seq<Seq<char>>) -> Seq<char> {
    "Too many names declared: "@ + join_spec(names, ", "@)
}

/// The message of a rejected header with an unknown layer.
pub open spec fn invalid_layer_text(layer: Seq<char>) -> Seq<char> {
    "Invalid layer '"@ + layer + "' declared"@
}

/// A header without a name is passed over; the other header errors become
/// an `InvalidFileHeader` of the same path.
pub fn handle_file_node_error(e: FileNodeError) -> (r: Result<(), TopCatError>)
    ensures
        match e {
            FileNodeError::NoNameDefined(_) => r is Ok,
            FileNodeError::TooManyNames(p, names) => match r {
                Err(TopCatError::InvalidFileHeader(q, m)) => q@ == p@ && m@ == too_many_names_text(
                    views(names@),
                ),
                _ => false,
            },
            FileNodeError::InvalidLayer(p, l) => match r {
                Err(TopCatError::InvalidFileHeader(q, m)) => q@ == p@ && m@ == invalid_layer_text(l@),
                _ => false,
            },
        },
{
    match e {
        FileNodeError::NoNameDefined(_) => Ok(()),
        FileNodeError::TooManyNames(p, s) => {
            let mut m = String::from_str("Too many names declared: ");
            let joined = join(&s, ", ");
            m.append(joined.as_str());
            Err(TopCatError::InvalidFileHeader(p, m))
        },
        FileNodeError::InvalidLayer(p, layer) => {
            let mut m = String::from_str("Invalid layer '");
            m.append(layer.as_str());
            m.append("' declared");
            Err(TopCatError::InvalidFileHeader(p, m))
        },
    }
}

/// What a sequence holds, it still holds after a push, beside the new item.
pub proof fn lemma_push_contains<A>(s: Seq<A>, x: A)
    ensures
        forall|y: A| s.contains(y) ==> #[trigger] s.push(x).contains(y),
        s.push(x).contains(x),
{
    assert forall|y: A| s.contains(y) implies #[trigger] s.push(x).contains(y) by {
        let k = choose|k: int| 0 <= k < s.len() && s[k] == y;
        assert(s.push(x)[k] == y);
    }
    assert(s.push(x)[s.len() as int] == x);
}

pub open spec fn is_graph_missing(r: Result<Vec<String>, TopCatError>) -> bool {
    match r {
        Err(TopCatError::GraphMissing) => true,
        _ => false,
    }
}

pub open spec fn is_empty_ok(r: Result<Vec<String>, TopCatError>) -> bool {
    match r {
        Ok(v) => v@.len() == 0,
        _ => false,
    }
}

/// A subdirectory filter is set and selects no node.
pub open spec fn selects_nothing(selected: Option<Vec<String>>) -> bool {
    match selected {
        Some(sd) => sd@.len() == 0,
        None => false,
    }
}

/// `name` begins with one of `ps`.
pub open spec fn has_prefix_in(name: Seq<char>, ps: Seq<Seq<char>>) -> bool {
    exists|p: Seq<char>| #[trigger] ps.contains(p) && starts(name, p)
}

/// Whether `name` begins with one of `ps`.
pub fn any_prefix(ps: &Vec<String>, name: &str) -> (r: bool)
    ensures
        r == has_prefix_in(name@, views(ps@)),
{
    let mut i: usize = 0;
    while i < ps.len()
        invariant
            i <= ps@.len(),
            forall|j: int| 0 <= j < i ==> !starts(name@, #[trigger] views(ps@)[j]),
        decreases ps@.len() - i,
    {
        if starts_with(name, ps[i].as_str()) {
            proof {
                assert(views(ps@)[i as int] == ps@[i as int]@);
                assert(views(ps@).contains(ps@[i as int]@));
            }
            return true;
        }
        proof {
            assert(views(ps@)[i as int] == ps@[i as int]@);
        }
        i = i + 1;
    }
    proof {
        assert forall|p: Seq<char>| #[trigger] views(ps@).contains(p) implies !starts(name@, p) by {
            let j = choose|j: int| 0 <= j < views(ps@).len() && views(ps@)[j] == p;
        }
    }
    false
}

/// `node` is named `a` and requires `b`.
pub open spec fn names_and_requires(node: FileNode, a: Seq<char>, b: Seq<char>) -> bool {
    node.name@ == a && views(node.deps@).contains(b)
}

/// Along `c` each node is required by the next, and the last by the
/// first: a cycle of requirements.
pub open spec fn is_requires_cycle(c: Seq<FileNode>) -> bool {
    &&& c.len() >= 1
    &&& forall|q: int| 0 <= q < c.len() - 1 ==> views(#[trigger] c[q + 1].deps@).contains(c[q].name@)
    &&& views(c[0].deps@).contains(c[c.len() - 1].name@)
}

/// `a` and `b` hold the same texts: name, path, requirements, layer and
/// asserted names.
pub open spec fn same_links(a: FileNode, b: FileNode) -> bool {
    &&& a.name@ == b.name@
    &&& a.path@ == b.path@
    &&& a.deps@ == b.deps@
    &&& a.layer@ == b.layer@
    &&& a.ensure_exists@ == b.ensure_exists@
}

/// The number of requirements of the first `i` nodes, counted with their
/// repeats across nodes.
pub open spec fn deps_total(nodes: Seq<FileNode>, i: int) -> nat
    decreases i,
{
    if i <= 0 {
        0
    } else {
        deps_total(nodes, i - 1) + nodes[i - 1].deps@.len()
    }
}

/// Counting more nodes counts no fewer requirements.
pub proof fn lemma_deps_total_grows(nodes: Seq<FileNode>, i: int, j: int)
    requires
        0 <= i <= j,
    ensures
        deps_total(nodes, i) <= deps_total(nodes, j),
    decreases j - i,
{
    if i < j {
        lemma_deps_total_grows(nodes, i, j - 1);
    }
}

/// `c` lists nodes of which each requires the one before it and the first
/// requires the last.
pub open spec fn is_requires_walk(nodes: Seq<FileNode>, c: Seq<int>) -> bool {
    &&& c.len() >= 1
    &&& forall|k: int| 0 <= k < c.len() ==> 0 <= #[trigger] c[k] < nodes.len()
    &&& forall|k: int| 0 <= k < c.len() - 1 ==> views(nodes[#[trigger] c[k + 1]].deps@).contains(nodes[c[k]].name@)
    &&& views(nodes[c[0]].deps@).contains(nodes[c[c.len() - 1]].name@)
}

/// `nodes` are, one for one and in order, what the entries of `made` (a
/// path and a header model each) describe.
pub open spec fn nodes_made(nodes: Seq<FileNode>, made: Seq<(Seq<char>, HeaderModel)>) -> bool {
    &&& nodes.len() == made.len()
    &&& forall|j: int| 0 <= j < nodes.len() ==> #[trigger] node_of(nodes[j], made[j].0, made[j].1)
}

/// The Graphviz attribute that labels a node by its name.
pub open spec fn label_attr(name: Seq<char>) -> Seq<char> {
    "label=\""@ + name + "\""@
}

/// The label attributes of the nodes, by index.
pub open spec fn label_attrs(nodes: Seq<FileNode>) -> Seq<Seq<char>> {
    Seq::new(nodes.len(), |i: int| label_attr(nodes[i].name@))
}

/// No two nodes of `c` share a name.
pub open spec fn names_distinct(c: Seq<FileNode>) -> bool {
    forall|a: int, b: int| 0 <= a < c.len() && 0 <= b < c.len() && a != b ==> #[trigger] c[a].name@ != #[trigger] c[b].name@
}

/// Pushing a node named unlike all before keeps the names distinct.
pub proof fn lemma_push_distinct_name(c0: Seq<FileNode>, c: Seq<FileNode>)
    requires
        names_distinct(c0),
        c.len() == c0.len() + 1,
        forall|q: int| 0 <= q < c0.len() ==> c[q] == c0[q],
        forall|q: int| 0 <= q < c0.len() ==> (#[trigger] c0[q]).name@ != c[c0.len() as int].name@,
    ensures
        names_distinct(c),
{
    assert forall|a: int, b: int| 0 <= a < c.len() && 0 <= b < c.len() && a != b implies #[trigger] c[a].name@ != #[trigger] c[b].name@ by {
        if a < c0.len() && b < c0.len() {
            assert(c0[a].name@ != c0[b].name@);
        } else if a < c0.len() {
            assert(c0[a].name@ != c[b].name@);
        } else {
            assert(c0[b].name@ != c[a].name@);
        }
    }
}

/// `a` and `b` name the same nodes in the same order.
pub open spec fn same_names(a: Seq<FileNode>, b: Seq<FileNode>) -> bool {
    a.len() == b.len() && forall|t: int| 0 <= t < a.len() ==> #[trigger] a[t].name@ == b[t].name@
}

/// No two of `cs` name the same nodes in the same order.
pub open spec fn cycles_distinct(cs: Seq<Vec<FileNode>>) -> bool {
    forall|i: int, j: int| 0 <= i < cs.len() && 0 <= j < cs.len() && i != j ==> !same_names(#[trigger] cs[i]@, #[trigger] cs[j]@)
}

/// Whether `a` and `b` name the same nodes in the same order.
pub fn same_name_seq(a: &Vec<FileNode>, b: &Vec<FileNode>) -> (r: bool)
    ensures
        r == same_names(a@, b@),
{
    if a.len() != b.len() {
        return false;
    }
    let mut t: usize = 0;
    while t < a.len()
        invariant
            t <= a@.len(),
            a@.len() == b@.len(),
            forall|u: int| 0 <= u < t ==> #[trigger] a@[u].name@ == b@[u].name@,
        decreases a@.len() - t,
    {
        if a[t].name != b[t].name {
            return false;
        }
        t = t + 1;
    }
    true
}

/// Whether one of `cs` names the same nodes as `c` in the same order.
pub fn has_cycle(cs: &Vec<Vec<FileNode>>, c: &Vec<FileNode>) -> (r: bool)
    ensures
        r == exists|i: int| 0 <= i < cs@.len() && #[trigger] same_names(cs@[i]@, c@),
{
    let mut i: usize = 0;
    while i < cs.len()
        invariant
            i <= cs@.len(),
            forall|u: int| 0 <= u < i ==> !#[trigger] same_names(cs@[u]@, c@),
        decreases cs@.len() - i,
    {
        if same_name_seq(&cs[i], c) {
            return true;
        }
        i = i + 1;
    }
    false
}

/// No node of `c` has a name before that of its first node.
pub open spec fn starts_at_least(c: Seq<FileNode>) -> bool {
    forall|t: int| 0 <= t < c.len() ==> !seq_lt(#[trigger] c[t].name@, c[0].name@)
}

/// `r` is `c` turned to begin at index `m`, node for node by name and
/// requirements.
pub open spec fn rotated_by(c: Seq<FileNode>, r: Seq<FileNode>, m: int) -> bool {
    let n = c.len() as int;
    &&& r.len() == n
    &&& forall|t: int| 0 <= t < n - m ==> same_links(#[trigger] r[t], c[m + t])
    &&& forall|t: int| n - m <= t < n ==> same_links(#[trigger] r[t], c[t - (n - m)])
}

/// `c` turned to begin at its node of least name.
pub fn rotate_to_least(c: &Vec<FileNode>) -> (r: Vec<FileNode>)
    requires
        is_requires_cycle(c@),
    ensures
        is_requires_cycle(r@),
        r@.len() == c@.len(),
        exists|m: int| 0 <= m < c@.len() && #[trigger] rotated_by(c@, r@, m),
        starts_at_least(r@),
        names_distinct(c@) ==> names_distinct(r@),
{
    let n = c.len();
    let mut m: usize = 0;
    let mut i: usize = 1;
    while i < n
        invariant
            m < n,
            1 <= i <= n,
            n == c@.len(),
            forall|j: int| 0 <= j < i ==> !seq_lt(#[trigger] c@[j].name@, c@[m as int].name@),
        decreases n - i,
    {
        if crate::stable_topo::name_lt(c[i].name.as_str(), c[m].name.as_str()) {
            proof {
                assert forall|j: int| 0 <= j < i implies !seq_lt(#[trigger] c@[j].name@, c@[i as int].name@) by {
                    if seq_lt(c@[j].name@, c@[i as int].name@) {
                        lemma_seq_lt_transitive(c@[j].name@, c@[i as int].name@, c@[m as int].name@);
                    }
                }
            }
            m = i;
        }
        i = i + 1;
    }
    let mut r: Vec<FileNode> = Vec::new();
    let mut k: usize = m;
    while k < n
        invariant
            m <= k <= n,
            n == c@.len(),
            r@.len() == k - m,
            forall|t: int| 0 <= t < r@.len() ==> same_links(#[trigger] r@[t], c@[m + t]),
        decreases n - k,
    {
        r.push(c[k].copy());
        k = k + 1;
    }
    let mut k: usize = 0;
    while k < m
        invariant
            k <= m,
            m < n,
            n == c@.len(),
            r@.len() == n - m + k,
            forall|t: int| 0 <= t < n - m ==> same_links(#[trigger] r@[t], c@[m + t]),
            forall|t: int| n - m <= t < r@.len() ==> same_links(#[trigger] r@[t], c@[t - (n - m)]),
        decreases m - k,
    {
        r.push(c[k].copy());
        k = k + 1;
    }
    proof {
        let cs = c@;
        let rs = r@;
        let len = n as int;
        let mm = m as int;
        assert forall|q: int| 0 <= q < len - 1 implies views(#[trigger] rs[q + 1].deps@).contains(rs[q].name@) by {
            if q + 1 < len - mm {
                assert(same_links(rs[q], cs[mm + q]));
                assert(same_links(rs[q + 1], cs[mm + q + 1]));
                assert(views(cs[(mm + q) + 1].deps@).contains(cs[mm + q].name@));
            } else if q + 1 == len - mm {
                assert(same_links(rs[q], cs[len - 1]));
                assert(same_links(rs[q + 1], cs[0]));
            } else {
                assert(same_links(rs[q], cs[q - (len - mm)]));
                assert(same_links(rs[q + 1], cs[q + 1 - (len - mm)]));
                assert(views(cs[(q - (len - mm)) + 1].deps@).contains(cs[q - (len - mm)].name@));
            }
        }
        assert(same_links(rs[0], cs[mm]));
        if mm > 0 {
            assert(same_links(rs[len - 1], cs[mm - 1]));
            assert(views(cs[(mm - 1) + 1].deps@).contains(cs[mm - 1].name@));
        } else {
            assert(same_links(rs[len - 1], cs[len - 1]));
        }
        assert(rotated_by(cs, rs, mm));
        if names_distinct(cs) {
            assert forall|t1: int, t2: int| 0 <= t1 < len && 0 <= t2 < len && t1 != t2 implies #[trigger] rs[t1].name@ != #[trigger] rs[t2].name@ by {
                let s1 = if t1 < len - mm { mm + t1 } else { t1 - (len - mm) };
                let s2 = if t2 < len - mm { mm + t2 } else { t2 - (len - mm) };
                assert(same_links(rs[t1], cs[s1]));
                assert(same_links(rs[t2], cs[s2]));
                assert(cs[s1].name@ != cs[s2].name@);
            }
        }
        assert forall|t: int| 0 <= t < rs.len() implies !seq_lt(#[trigger] rs[t].name@, rs[0].name@) by {
            if t < len - mm {
                assert(same_links(rs[t], cs[mm + t]));
            } else {
                assert(same_links(rs[t], cs[t - (len - mm)]));
            }
        }
    }
    r
}

/// What `Path::extension` finds in a path: the part of its file name after
/// the last dot, if there is one that does not begin the name.
pub uninterp spec fn extension_of(path: Seq<char>) -> Option<Seq<char>>;

/// Relies on `std::path::Path::extension`; a path made from a `str` is
/// valid UTF-8, so the lossy conversion keeps it as it is.
#[verifier::external_body]
fn path_extension(path: &str) -> (r: Option<String>)
    ensures
        match r {
            Some(e) => extension_of(path@) == Some(e@),
            None => extension_of(path@) is None,
        },
{
    std::path::Path::new(path).extension().map(|e| e.to_string_lossy().to_string())
}

/// An optional set is in force when it is given and not empty.
pub open spec fn in_force(s: Option<Seq<Seq<char>>>) -> bool {
    s matches Some(v) && v.len() > 0
}

/// The file at `path` passes the filters: its lower-cased extension is one
/// of the included ones and none of the excluded ones, and the path is among
/// the included files and not among the excluded ones, for each filter in
/// force. A path without an extension fails either extension filter.
pub open spec fn keeps_file(
    path: Seq<char>,
    include_files: Option<Seq<Seq<char>>>,
    exclude_files: Option<Seq<Seq<char>>>,
    include_exts: Option<Seq<Seq<char>>>,
    exclude_exts: Option<Seq<Seq<char>>>,
) -> bool {
    &&& in_force(include_exts) ==> (extension_of(path) matches Some(e) && include_exts->Some_0.contains(lower_of(e)))
    &&& in_force(exclude_exts) ==> (extension_of(path) matches Some(e) && !exclude_exts->Some_0.contains(lower_of(e)))
    &&& in_force(include_files) ==> include_files->Some_0.contains(path)
    &&& in_force(exclude_files) ==> !exclude_files->Some_0.contains(path)
}

/// The paths of `files` that pass the filters, in their order.
pub open spec fn kept_files(
    files: Seq<Seq<char>>,
    include_files: Option<Seq<Seq<char>>>,
    exclude_files: Option<Seq<Seq<char>>>,
    include_exts: Option<Seq<Seq<char>>>,
    exclude_exts: Option<Seq<Seq<char>>>,
) -> Seq<Seq<char>>
    decreases files.len(),
{
    if files.len() == 0 {
        Seq::empty()
    } else {
        kept_files(files.drop_last(), include_files, exclude_files, include_exts, exclude_exts) + if keeps_file(
            files.last(),
            include_files,
            exclude_files,
            include_exts,
            exclude_exts,
        ) {
            seq![files.last()]
        } else {
            Seq::empty()
        }
    }
}

/// Whether the lower-cased extension of `path` is in `exts`; `None` when the
/// path has no extension.
fn extension_in(path: &str, exts: &Vec<String>) -> (r: Option<bool>)
    ensures
        match r {
            Some(b) => extension_of(path@) matches Some(e) && b == views(exts@).contains(lower_of(e)),
            None => extension_of(path@) is None,
        },
{
    match path_extension(path) {
        Some(e) => {
            let low = lowercase(e.as_str());
            Some(contains_name(exts, &low))
        },
        None => None,
    }
}

/// Keeps the files that pass the extension and file-set filters.
pub fn filter_files(
    files: &Vec<String>,
    include_file_set: &Option<Vec<String>>,
    exclude_file_set: &Option<Vec<String>>,
    include_extensions: &Option<Vec<String>>,
    exclude_extensions: &Option<Vec<String>>,
) -> (r: Vec<String>)
    ensures
        views(r@) == kept_files(
            views(files@),
            option_views(*include_file_set),
            option_views(*exclude_file_set),
            option_views(*include_extensions),
            option_views(*exclude_extensions),
        ),
{
    let ghost inf = option_views(*include_file_set);
    let ghost exf = option_views(*exclude_file_set);
    let ghost inx = option_views(*include_extensions);
    let ghost exx = option_views(*exclude_extensions);
    let mut out: Vec<String> = Vec::new();
    let mut i: usize = 0;
    while i < files.len()
        invariant
            i <= files@.len(),
            inf == option_views(*include_file_set),
            exf == option_views(*exclude_file_set),
            inx == option_views(*include_extensions),
            exx == option_views(*exclude_extensions),
            views(out@) == kept_files(views(files@.subrange(0, i as int)), inf, exf, inx, exx),
        decreases files@.len() - i,
    {
        let path = files[i].as_str();
        let mut keep = true;
        if let Some(wanted) = include_extensions {
            if wanted.len() > 0 {
                match extension_in(path, wanted) {
                    Some(b) => {
                        if !b {
                            keep = false;
                        }
                    },
                    None => {
                        keep = false;
                    },
                }
            }
        }
        if let Some(exclude) = exclude_extensions {
            if exclude.len() > 0 {
                match extension_in(path, exclude) {
                    Some(b) => {
                        if b {
                            keep = false;
                        }
                    },
                    None => {
                        keep = false;
                    },
                }
            }
        }
        if let Some(wanted_files) = include_file_set {
            if wanted_files.len() > 0 && !contains_name(wanted_files, &files[i]) {
                keep = false;
            }
        }
        if let Some(exclude) = exclude_file_set {
            if exclude.len() > 0 && contains_name(exclude, &files[i]) {
                keep = false;
            }
        }
        proof {
            assert(keep == keeps_file(files@[i as int]@, inf, exf, inx, exx));
        }
        let ghost before = views(out@);
        if keep {
            out.push(files[i].clone());
            proof {
                assert(views(out@) =~= before.push(files@[i as int]@));
            }
        }
        proof {
            let sub = views(files@.subrange(0, i + 1));
            assert(sub.drop_last() =~= views(files@.subrange(0, i as int)));
            assert(sub.last() == files@[i as int]@);
            assert(views(out@) =~= kept_files(sub, inf, exf, inx, exx));
        }
        i = i + 1;
    }
    proof {
        assert(files@.subrange(0, i as int) =~= files@);
    }
    out
}

/// Represents a graph structure for a set of files and their dependencies.
pub struct TCGraph {
    comment_str: String,
    include_node_prefixes: Option<Vec<String>>,
    exclude_node_prefixes: Option<Vec<String>>,
    layers: Vec<String>,
    fallback_layer: String,
    /// The named nodes, in the order in which they were registered.
    nodes: Vec<FileNode>,
    /// For each node, the index of its layer.
    node_layer: Vec<usize>,
    /// For each node, its index in its layer's graph.
    node_slot: Vec<usize>,
    /// One graph per layer, by the layer's index; a node's weight is its
    /// index in `nodes`.
    layer_graphs: Vec<DiGraph<usize, ()>>,
    graph_is_built: bool,
}

/// An optional list of strings, as their texts.
pub open spec fn option_views(v: Option<Vec<String>>) -> Option<Seq<Seq<char>>> {
    match v {
        Some(x) => Some(views(x@)),
        None => None,
    }
}

impl TCGraph {
    pub closed spec fn comment_view(&self) -> Seq<char> {
        self.comment_str@
    }

    pub closed spec fn include_prefixes(&self) -> Option<Seq<Seq<char>>> {
        option_views(self.include_node_prefixes)
    }

    pub closed spec fn exclude_prefixes(&self) -> Option<Seq<Seq<char>>> {
        option_views(self.exclude_node_prefixes)
    }

    pub closed spec fn layers_view(&self) -> Seq<Seq<char>> {
        views(self.layers@)
    }

    pub closed spec fn fallback_view(&self) -> Seq<char> {
        self.fallback_layer@
    }

    pub closed spec fn nodes_view(&self) -> Seq<FileNode> {
        self.nodes@
    }

    pub closed spec fn node_layers(&self) -> Seq<usize> {
        self.node_layer@
    }

    pub closed spec fn node_slots(&self) -> Seq<usize> {
        self.node_slot@
    }

    pub closed spec fn graphs(&self) -> Seq<DiGraph<usize, ()>> {
        self.layer_graphs@
    }

    pub closed spec fn is_built(&self) -> bool {
        self.graph_is_built
    }

    /// The registered nodes have distinct names, each in a configured layer.
    pub open spec fn nodes_wf(&self) -> bool {
        let nodes = self.nodes_view();
        &&& self.node_layers().len() == nodes.len()
        &&& self.graphs().len() == self.layers_view().len()
        &&& forall|i: int, j: int|
            0 <= i < nodes.len() && 0 <= j < nodes.len() && i != j ==> #[trigger] nodes[i].name@
                != #[trigger] nodes[j].name@
        &&& forall|i: int|
            0 <= i < nodes.len() ==> first_index(self.layers_view(), #[trigger] nodes[i].layer@)
                == Some(self.node_layers()[i] as int)
    }

    /// A graph with no nodes yet, for the configured layers.
    pub fn new(config: &Config) -> (r: TCGraph)
        ensures
            r.comment_view() == config.comment_str@,
            r.layers_view() == views(config.layers@),
            r.fallback_view() == config.fallback_layer@,
            r.include_prefixes() == option_views(config.include_node_prefixes),
            r.exclude_prefixes() == option_views(config.exclude_node_prefixes),
            r.nodes_view().len() == 0,
            !r.is_built(),
            r.nodes_wf(),
            forall|l: int| 0 <= l < r.graphs().len() ==> graph_nodes(#[trigger] r.graphs()[l]).len() == 0
                && graph_edges(r.graphs()[l]).len() == 0,
    {
        let mut layer_graphs: Vec<DiGraph<usize, ()>> = Vec::new();
        let mut i: usize = 0;
        while i < config.layers.len()
            invariant
                i <= config.layers@.len(),
                layer_graphs@.len() == i,
                forall|l: int| 0 <= l < i ==> graph_nodes(#[trigger] layer_graphs@[l]).len() == 0
                    && graph_edges(layer_graphs@[l]).len() == 0,
            decreases config.layers@.len() - i,
        {
            layer_graphs.push(new_graph());
            i = i + 1;
        }
        TCGraph {
            comment_str: config.comment_str.clone(),
            include_node_prefixes: copy_option(&config.include_node_prefixes),
            exclude_node_prefixes: copy_option(&config.exclude_node_prefixes),
            layers: copy_names(&config.layers),
            fallback_layer: config.fallback_layer.clone(),
            nodes: Vec::new(),
            node_layer: Vec::new(),
            node_slot: Vec::new(),
            layer_graphs,
            graph_is_built: false,
        }
    }

    /// The index of the node named `name`, if any.
    fn find_node(&self, name: &String) -> (r: Option<usize>)
        ensures
            r is Some <==> names_of(self.nodes@).contains(name@),
            r is Some ==> r->Some_0 < self.nodes@.len() && self.nodes@[r->Some_0 as int].name@ == name@,
    {
        let mut i: usize = 0;
        while i < self.nodes.len()
            invariant
                i <= self.nodes@.len(),
                forall|j: int| 0 <= j < i ==> self.nodes@[j].name@ != name@,
            decreases self.nodes@.len() - i,
        {
            if self.nodes[i].name == *name {
                proof {
                    assert(names_of(self.nodes@)[i as int] == name@);
                }
                return Some(i);
            }
            i = i + 1;
        }
        proof {
            assert forall|j: int| 0 <= j < names_of(self.nodes@).len() implies names_of(self.nodes@)[j]
                != name@ by {
                assert(self.nodes@[j].name@ != name@);
            }
        }
        None
    }

    /// What the header of the file `f`, a path and the file's lines, reads as.
    pub open spec fn header_of(&self, f: (String, Vec<String>)) -> Result<HeaderModel, Seq<Seq<char>>> {
        parse_header(views(f.1@), self.comment_view(), self.fallback_view())
    }

    /// The file `f` has a header that makes a node.
    pub open spec fn makes_node(&self, f: (String, Vec<String>)) -> bool {
        &&& self.header_of(f) is Ok
        &&& self.header_of(f)->Ok_0.name.len() > 0
        &&& self.layers_view().contains(self.header_of(f)->Ok_0.layer)
    }

    /// The header of the file `f` is rejected: it names two names, or a
    /// layer that is not configured.
    pub open spec fn rejects(&self, f: (String, Vec<String>)) -> bool {
        ||| self.header_of(f) is Err
        ||| (self.header_of(f) is Ok && self.header_of(f)->Ok_0.name.len() > 0 && !self.layers_view().contains(
            self.header_of(f)->Ok_0.layer,
        ))
    }

    /// The nodes that the first `k` files make, as their paths and header
    /// models, in the files' order.
    pub open spec fn made(&self, files: Seq<(String, Vec<String>)>, k: int) -> Seq<(Seq<char>, HeaderModel)>
        decreases k,
    {
        if k <= 0 {
            Seq::empty()
        } else {
            self.made(files, k - 1) + if self.makes_node(files[k - 1]) {
                seq![(files[k - 1].0@, self.header_of(files[k - 1])->Ok_0)]
            } else {
                Seq::empty()
            }
        }
    }

    /// What `files` make, all of them.
    pub open spec fn made_all(&self, files: Seq<(String, Vec<String>)>) -> Seq<(Seq<char>, HeaderModel)> {
        self.made(files, files.len() as int)
    }

    /// Registering `files` succeeds: no header is rejected, the names made
    /// are distinct, and there are fewer of them than a graph can index.
    pub open spec fn files_ok(&self, files: Seq<(String, Vec<String>)>) -> bool {
        let m = self.made_all(files);
        &&& forall|k: int| 0 <= k < files.len() ==> !#[trigger] self.rejects(files[k])
        &&& forall|a: int, b: int|
            0 <= a < m.len() && 0 <= b < m.len() && a != b ==> #[trigger] m[a].1.name != #[trigger] m[b].1.name
        &&& m.len() < MAX_GRAPH_ITEMS
    }

    /// What the first `a` files make begins what the first `b` make.
    proof fn lemma_made_prefix(&self, files: Seq<(String, Vec<String>)>, a: int, b: int)
        requires
            0 <= a <= b <= files.len(),
        ensures
            self.made(files, a).len() <= self.made(files, b).len(),
            self.made(files, b).subrange(0, self.made(files, a).len() as int) == self.made(files, a),
        decreases b - a,
    {
        if a < b {
            self.lemma_made_prefix(files, a, b - 1);
            let ma = self.made(files, a);
            let mb1 = self.made(files, b - 1);
            let mb = self.made(files, b);
            assert(mb.subrange(0, mb1.len() as int) =~= mb1);
            assert(mb.subrange(0, ma.len() as int) =~= mb1.subrange(0, ma.len() as int));
        } else {
            assert(self.made(files, b).subrange(0, self.made(files, a).len() as int) =~= self.made(files, a));
        }
    }

    /// Parses each file's header and registers the nodes that have a name.
    fn add_files(&mut self, files: &Vec<(String, Vec<String>)>) -> (r: Result<(), TopCatError>)
        requires
            old(self).nodes_wf(),
            old(self).nodes@.len() == 0,
        ensures
            final(self).nodes_wf(),
            final(self).comment_str == old(self).comment_str,
            final(self).layers == old(self).layers,
            final(self).fallback_layer == old(self).fallback_layer,
            final(self).include_node_prefixes == old(self).include_node_prefixes,
            final(self).exclude_node_prefixes == old(self).exclude_node_prefixes,
            final(self).layer_graphs == old(self).layer_graphs,
            final(self).graph_is_built == old(self).graph_is_built,
            final(self).nodes@.len() < MAX_GRAPH_ITEMS,
            r is Ok <==> old(self).files_ok(files@),
            r is Ok ==> nodes_made(final(self).nodes@, old(self).made_all(files@)),
            r matches Err(TopCatError::UnknownError(_)) ==> old(self).made_all(files@).len() >= MAX_GRAPH_ITEMS,
            r matches Err(e) ==> (e is NameClash || e is InvalidFileHeader || e is UnknownError),
            match r {
                Err(TopCatError::InvalidFileHeader(p, _)) => exists|k: int|
                    0 <= k < files@.len() && files@[k].0@ == p@ && #[trigger] old(self).rejects(files@[k]),
                _ => true,
            },
            r is Ok ==> forall|k: int|
                0 <= k < files@.len() && old(self).makes_node(#[trigger] files@[k]) ==> names_of(
                    final(self).nodes@,
                ).contains(old(self).header_of(files@[k])->Ok_0.name),
            match r {
                Err(TopCatError::NameClash(name, p1, p2)) => exists|k1: int, k2: int|
                    0 <= k1 < files@.len() && 0 <= k2 < files@.len() && k1 != k2
                        && old(self).makes_node(#[trigger] files@[k1]) && old(self).makes_node(
                        #[trigger] files@[k2],
                    ) && files@[k1].0@ == p1@ && files@[k2].0@ == p2@ && old(self).header_of(
                        files@[k1],
                    )->Ok_0.name == name@ && old(self).header_of(files@[k2])->Ok_0.name == name@,
                _ => true,
            },
    {
        let ghost g0 = *self;
        let ghost mut src: Seq<int> = Seq::empty();
        let mut i: usize = 0;
        while i < files.len()
            invariant
                i <= files@.len(),
                g0 == *old(self),
                self.nodes_wf(),
                self.comment_str == g0.comment_str,
                self.layers == g0.layers,
                self.fallback_layer == g0.fallback_layer,
                self.include_node_prefixes == g0.include_node_prefixes,
                self.exclude_node_prefixes == g0.exclude_node_prefixes,
                self.layer_graphs == g0.layer_graphs,
                self.graph_is_built == g0.graph_is_built,
                self.nodes@.len() < MAX_GRAPH_ITEMS,
                src.len() == self.nodes@.len(),
                nodes_made(self.nodes@, g0.made(files@, i as int)),
                forall|k: int| 0 <= k < i ==> !#[trigger] g0.rejects(files@[k]),
                forall|j: int|
                    0 <= j < self.nodes@.len() ==> 0 <= #[trigger] src[j] < i && g0.makes_node(
                        files@[src[j]],
                    ) && node_of(self.nodes@[j], files@[src[j]].0@, g0.header_of(files@[src[j]])->Ok_0),
                forall|k: int|
                    0 <= k < i && g0.makes_node(#[trigger] files@[k]) ==> names_of(self.nodes@).contains(
                        g0.header_of(files@[k])->Ok_0.name,
                    ),
            decreases files@.len() - i,
        {
            let parsed = FileNode::from_file(
                self.comment_str.as_str(),
                files[i].0.as_str(),
                &files[i].1,
                &self.layers,
                self.fallback_layer.as_str(),
            );
            let file_node = match parsed {
                Ok(f) => f,
                Err(e) => {
                    match handle_file_node_error(e) {
                        Ok(()) => {},
                        Err(err) => {
                            proof {
                                assert(g0.rejects(files@[i as int]));
                                assert(!g0.files_ok(files@));
                            }
                            return Err(err);
                        },
                    }
                    proof {
                        assert(!g0.makes_node(files@[i as int]));
                        assert(!g0.rejects(files@[i as int]));
                        assert(g0.made(files@, i + 1) =~= g0.made(files@, i as int));
                    }
                    i = i + 1;
                    continue;
                },
            };
            let ghost entry = (files@[i as int].0@, g0.header_of(files@[i as int])->Ok_0);
            proof {
                assert(g0.makes_node(files@[i as int]));
                assert(!g0.rejects(files@[i as int]));
                assert(g0.made(files@, i + 1) =~= g0.made(files@, i as int).push(entry));
                g0.lemma_made_prefix(files@, i + 1, files@.len() as int);
            }
            if let Some(other) = self.find_node(&file_node.name) {
                proof {
                    let k1 = src[other as int];
                    assert(self.nodes@[other as int].name@ == g0.header_of(files@[k1])->Ok_0.name);
                    let m = g0.made_all(files@);
                    let mi = g0.made(files@, i as int);
                    let mi1 = g0.made(files@, i + 1);
                    assert(mi1[mi.len() as int] == entry);
                    assert(mi1[other as int] == mi[other as int]);
                    assert(m.subrange(0, mi1.len() as int)[mi.len() as int] == m[mi.len() as int]);
                    assert(m.subrange(0, mi1.len() as int)[other as int] == m[other as int]);
                    assert(m[mi.len() as int] == entry);
                    assert(m[other as int] == mi[other as int]);
                    assert(node_of(self.nodes@[other as int], mi[other as int].0, mi[other as int].1));
                    assert(entry.1.name == file_node.name@);
                    assert(m[other as int].1.name == m[mi.len() as int].1.name);
                    assert(!g0.files_ok(files@));
                }
                return Err(
                    TopCatError::NameClash(
                        file_node.name,
                        file_node.path,
                        self.nodes[other].path.clone(),
                    ),
                );
            }
            if self.nodes.len() >= MAX_GRAPH_ITEMS - 1 {
                proof {
                    assert(g0.made(files@, i + 1).len() >= MAX_GRAPH_ITEMS);
                }
                return Err(TopCatError::UnknownError(String::from_str("Too many files")));
            }
            let li = layer_index(&self.layers, &file_node.layer);
            match li {
                Some(l) => {
                    let ghost before = self.nodes@;
                    let ghost before_layers = self.node_layer@;
                    let ghost fl = file_node.layer@;
                    let ghost before_self = *self;
                    self.nodes.push(file_node);
                    self.node_layer.push(l);
                    proof {
                        assert forall|q: int| 0 <= q < self.nodes@.len() implies first_index(
                            self.layers_view(),
                            #[trigger] self.nodes@[q].layer@,
                        ) == Some(self.node_layer@[q] as int) by {
                            if q < before.len() {
                                assert(self.nodes@[q] == before[q]);
                                assert(self.node_layer@[q] == before_layers[q]);
                                assert(before_self.nodes_view()[q] == before[q]);
                                assert(first_index(before_self.layers_view(), before_self.nodes_view()[q].layer@) == Some(before_layers[q] as int));
                            } else {
                                assert(self.nodes@[q].layer@ == fl);
                                assert(first_index(views(self.layers@), fl) == Some(l as int));
                            }
                        }
                        src = src.push(i as int);
                        assert(!names_of(before).contains(self.nodes@[before.len() as int].name@));
                        assert forall|a: int, b: int|
                            0 <= a < self.nodes@.len() && 0 <= b < self.nodes@.len() && a != b
                                implies #[trigger] self.nodes@[a].name@ != #[trigger] self.nodes@[b].name@ by {
                            if a == before.len() {
                                assert(names_of(before)[b] == before[b].name@);
                            } else if b == before.len() {
                                assert(names_of(before)[a] == before[a].name@);
                            } else {
                                assert(before[a].name@ != before[b].name@);
                            }
                        }
                        assert(nodes_made(self.nodes@, g0.made(files@, i + 1))) by {
                            let mi1 = g0.made(files@, i + 1);
                            assert forall|j: int| 0 <= j < self.nodes@.len() implies #[trigger] node_of(self.nodes@[j], mi1[j].0, mi1[j].1) by {
                                if j < before.len() {
                                    assert(self.nodes@[j] == before[j]);
                                    assert(mi1[j] == g0.made(files@, i as int)[j]);
                                }
                            }
                        }
                        assert forall|k: int|
                            0 <= k <= i && g0.makes_node(#[trigger] files@[k]) implies names_of(
                                self.nodes@,
                            ).contains(g0.header_of(files@[k])->Ok_0.name) by {
                            if k < i {
                                let j = choose|j: int| 0 <= j < before.len() && names_of(before)[j] == g0.header_of(files@[k])->Ok_0.name;
                                assert(names_of(self.nodes@)[j] == names_of(before)[j]);
                            } else {
                                assert(names_of(self.nodes@)[before.len() as int] == g0.header_of(files@[k])->Ok_0.name);
                            }
                        }
                    }
                },
                None => {
                    proof {
                        assert(views(self.layers@).contains(file_node.layer@));
                    }
                    return Err(TopCatError::UnknownError(String::from_str("Layer not found")));
                },
            }
            i = i + 1;
        }
        proof {
            let m = g0.made_all(files@);
            assert(m == g0.made(files@, i as int));
            assert forall|a: int, b: int|
                0 <= a < m.len() && 0 <= b < m.len() && a != b implies #[trigger] m[a].1.name != #[trigger] m[b].1.name by {
                assert(node_of(self.nodes@[a], m[a].0, m[a].1));
                assert(node_of(self.nodes@[b], m[b].0, m[b].1));
                assert(self.nodes@[a].name@ != self.nodes@[b].name@);
            }
        }
        Ok(())
    }

    /// Every node stands in its layer's graph, at its slot, with its index as
    /// its weight; and each graph holds only such nodes.
    pub open spec fn placed(&self) -> bool {
        let nodes = self.nodes_view();
        let gs = self.graphs();
        &&& self.nodes_wf()
        &&& self.node_slots().len() == nodes.len()
        &&& forall|i: int|
            0 <= i < nodes.len() ==> {
                &&& #[trigger] self.node_layers()[i] < gs.len()
                &&& self.node_slots()[i] < graph_nodes(gs[self.node_layers()[i] as int]).len()
                &&& graph_nodes(gs[self.node_layers()[i] as int])[self.node_slots()[i] as int] == i
            }
        &&& forall|l: int, k: int|
            0 <= l < gs.len() && 0 <= k < graph_nodes(#[trigger] gs[l]).len() ==> {
                let w = #[trigger] graph_nodes(gs[l])[k];
                &&& w < nodes.len()
                &&& self.node_layers()[w as int] == l
                &&& self.node_slots()[w as int] == k
            }
        &&& forall|l: int|
            0 <= l < gs.len() ==> edges_in_range(
                graph_edges(#[trigger] gs[l]),
                graph_nodes(gs[l]).len(),
            )
    }

    /// Puts each registered node into the graph of its layer.
    fn add_nodes_to_graphs(&mut self)
        requires
            old(self).nodes_wf(),
            old(self).nodes@.len() < MAX_GRAPH_ITEMS,
        ensures
            final(self).placed(),
            final(self).comment_str == old(self).comment_str,
            final(self).layers == old(self).layers,
            final(self).fallback_layer == old(self).fallback_layer,
            final(self).include_node_prefixes == old(self).include_node_prefixes,
            final(self).exclude_node_prefixes == old(self).exclude_node_prefixes,
            final(self).nodes == old(self).nodes,
            final(self).node_layer == old(self).node_layer,
            final(self).graph_is_built == old(self).graph_is_built,
            forall|l: int| 0 <= l < final(self).graphs().len() ==> graph_edges(#[trigger] final(self).graphs()[l]).len() == 0,
    {
        let n = self.nodes.len();
        let nl = self.layers.len();
        proof {
            assert forall|i: int| 0 <= i < n implies #[trigger] self.node_layer@[i] < nl by {
                let li = self.nodes@[i].layer@;
                assert(first_index(views(self.layers@), li) == Some(self.node_layer@[i] as int));
                lemma_first_index_from(views(self.layers@), li, 0);
            }
        }
        let mut slots: Vec<usize> = Vec::new();
        let mut j: usize = 0;
        while j < n
            invariant
                j <= n,
                slots@.len() == j,
            decreases n - j,
        {
            slots.push(0);
            j = j + 1;
        }
        let mut graphs: Vec<DiGraph<usize, ()>> = Vec::new();
        let mut l: usize = 0;
        while l < nl
            invariant
                l <= nl,
                n == self.nodes@.len(),
                nl == self.layers@.len(),
                n < MAX_GRAPH_ITEMS,
                self.node_layer@.len() == n,
                forall|i: int| 0 <= i < n ==> #[trigger] self.node_layer@[i] < nl,
                graphs@.len() == l,
                slots@.len() == n,
                forall|i: int|
                    0 <= i < n && #[trigger] self.node_layer@[i] < l ==> {
                        &&& slots@[i] < graph_nodes(graphs@[self.node_layer@[i] as int]).len()
                        &&& graph_nodes(graphs@[self.node_layer@[i] as int])[slots@[i] as int] == i
                    },
                forall|m: int, k: int|
                    0 <= m < l && 0 <= k < graph_nodes(#[trigger] graphs@[m]).len() ==> {
                        let w = #[trigger] graph_nodes(graphs@[m])[k];
                        &&& w < n
                        &&& self.node_layer@[w as int] == m
                        &&& slots@[w as int] == k
                    },
                forall|m: int| 0 <= m < l ==> graph_edges(#[trigger] graphs@[m]).len() == 0,
            decreases nl - l,
        {
            let mut g = new_graph();
            let mut i: usize = 0;
            while i < n
                invariant
                    i <= n,
                    l < nl,
                    n == self.nodes@.len(),
                    n < MAX_GRAPH_ITEMS,
                    self.node_layer@.len() == n,
                    forall|q: int| 0 <= q < n ==> #[trigger] self.node_layer@[q] < nl,
                    graphs@.len() == l,
                    slots@.len() == n,
                    graph_nodes(g).len() <= i,
                    graph_edges(g).len() == 0,
                    forall|q: int|
                        0 <= q < n && #[trigger] self.node_layer@[q] < l ==> {
                            &&& slots@[q] < graph_nodes(graphs@[self.node_layer@[q] as int]).len()
                            &&& graph_nodes(graphs@[self.node_layer@[q] as int])[slots@[q] as int] == q
                        },
                    forall|m: int, k: int|
                        0 <= m < l && 0 <= k < graph_nodes(#[trigger] graphs@[m]).len() ==> {
                            let w = #[trigger] graph_nodes(graphs@[m])[k];
                            &&& w < n
                            &&& self.node_layer@[w as int] == m
                            &&& slots@[w as int] == k
                        },
                    forall|m: int| 0 <= m < l ==> graph_edges(#[trigger] graphs@[m]).len() == 0,
                    forall|q: int|
                        0 <= q < i && #[trigger] self.node_layer@[q] == l ==> {
                            &&& slots@[q] < graph_nodes(g).len()
                            &&& graph_nodes(g)[slots@[q] as int] == q
                        },
                    forall|k: int|
                        0 <= k < graph_nodes(g).len() ==> {
                            let w = #[trigger] graph_nodes(g)[k];
                            &&& w < i
                            &&& self.node_layer@[w as int] == l
                            &&& slots@[w as int] == k
                        },
                decreases n - i,
            {
                if self.node_layer[i] == l {
                    let slot = add_node(&mut g, i);
                    slots.set(i, slot);
                }
                i = i + 1;
            }
            graphs.push(g);
            l = l + 1;
        }
        self.layer_graphs = graphs;
        self.node_slot = slots;
    }

    /// The node at index `b` of layer `l`'s graph requires the node at `a`.
    pub open spec fn dep_edge(&self, l: int, a: int, b: int) -> bool {
        let g = self.graphs()[l];
        let n = graph_nodes(g).len();
        &&& 0 <= a < n
        &&& 0 <= b < n
        &&& views(self.nodes_view()[graph_nodes(g)[b] as int].deps@).contains(
            self.nodes_view()[graph_nodes(g)[a] as int].name@,
        )
    }

    /// Each layer's edges are exactly its nodes' requirements within it.
    pub open spec fn edges_match(&self) -> bool {
        forall|l: int, a: int, b: int|
            #![trigger has_edge(graph_edges(self.graphs()[l]), a, b)]
            #![trigger self.dep_edge(l, a, b)]
            0 <= l < self.graphs().len() ==> (has_edge(graph_edges(self.graphs()[l]), a, b)
                <==> self.dep_edge(l, a, b))
    }

    /// The node `i` asserts only names that exist, and requires only nodes
    /// of its own layer or of earlier ones.
    pub open spec fn node_ok(&self, i: int) -> bool {
        let nodes = self.nodes_view();
        &&& forall|e: Seq<char>|
            #[trigger] views(nodes[i].ensure_exists@).contains(e) ==> names_of(nodes).contains(e)
        &&& forall|d: Seq<char>|
            #[trigger] views(nodes[i].deps@).contains(d) ==> names_of(nodes).contains(d)
        &&& forall|j: int|
            0 <= j < nodes.len() && views(nodes[i].deps@).contains(#[trigger] nodes[j].name@)
                ==> self.node_layers()[i] >= self.node_layers()[j]
    }

    pub open spec fn no_problems(&self) -> bool {
        forall|i: int| 0 <= i < self.nodes_view().len() ==> #[trigger] self.node_ok(i)
    }

    /// What an error of dependency validation says holds of the nodes.
    pub open spec fn explains(&self, e: TopCatError) -> bool {
        let nodes = self.nodes_view();
        match e {
            TopCatError::MissingExist(a, b) => exists|i: int|
                0 <= i < nodes.len() && #[trigger] nodes[i].name@ == a@ && views(
                    nodes[i].ensure_exists@,
                ).contains(b@) && !names_of(nodes).contains(b@),
            TopCatError::MissingDependency(a, b) => exists|i: int|
                0 <= i < nodes.len() && #[trigger] nodes[i].name@ == a@ && views(nodes[i].deps@).contains(
                    b@,
                ) && !names_of(nodes).contains(b@),
            TopCatError::InvalidDependency(a, _) => exists|i: int, j: int|
                0 <= i < nodes.len() && 0 <= j < nodes.len() && #[trigger] nodes[i].name@ == a@
                    && views(nodes[i].deps@).contains(#[trigger] nodes[j].name@)
                    && self.node_layers()[i] < self.node_layers()[j],
            _ => false,
        }
    }

    /// Checks every node's `exists:` and `requires:` names, and adds an edge
    /// from each requirement to its dependent where both share a layer.
    fn validate_dependencies(&mut self) -> (r: Result<(), TopCatError>)
        requires
            old(self).placed(),
            forall|q: int| 0 <= q < old(self).nodes@.len() ==> views(#[trigger] old(self).nodes@[q].deps@).no_duplicates(),
            forall|l: int| 0 <= l < old(self).graphs().len() ==> graph_edges(#[trigger] old(self).graphs()[l]).len() == 0,
        ensures
            final(self).placed(),
            final(self).comment_str == old(self).comment_str,
            final(self).layers == old(self).layers,
            final(self).fallback_layer == old(self).fallback_layer,
            final(self).include_node_prefixes == old(self).include_node_prefixes,
            final(self).exclude_node_prefixes == old(self).exclude_node_prefixes,
            final(self).nodes == old(self).nodes,
            final(self).node_layer == old(self).node_layer,
            final(self).node_slot == old(self).node_slot,
            final(self).graph_is_built == old(self).graph_is_built,
            final(self).graphs().len() == old(self).graphs().len(),
            forall|l: int| 0 <= l < final(self).graphs().len() ==> graph_nodes(#[trigger] final(self).graphs()[l]) == graph_nodes(old(self).graphs()[l]),
            r is Ok ==> final(self).no_problems() && final(self).edges_match(),
            forall|l: int| 0 <= l < final(self).graphs().len() ==> graph_edges(#[trigger] final(self).graphs()[l]).no_duplicates(),
            r matches Err(e) ==> final(self).explains(e) || (e is UnknownError && deps_total(
                old(self).nodes@,
                old(self).nodes@.len() as int,
            ) >= MAX_GRAPH_ITEMS - 1),
            old(self).no_problems() && deps_total(old(self).nodes@, old(self).nodes@.len() as int)
                < MAX_GRAPH_ITEMS - 1 ==> r is Ok,
    {
        let n = self.nodes.len();
        let ghost g0 = *self;
        let mut i: usize = 0;
        while i < n
            invariant
                g0 == *old(self),
                i <= n,
                n == self.nodes@.len(),
                self.placed(),
                self.comment_str == g0.comment_str,
                self.layers == g0.layers,
                self.fallback_layer == g0.fallback_layer,
                self.include_node_prefixes == g0.include_node_prefixes,
                self.exclude_node_prefixes == g0.exclude_node_prefixes,
                self.nodes == g0.nodes,
                self.node_layer == g0.node_layer,
                self.node_slot == g0.node_slot,
                self.graph_is_built == g0.graph_is_built,
                self.graphs().len() == g0.graphs().len(),
                forall|l: int| 0 <= l < self.graphs().len() ==> graph_nodes(#[trigger] self.graphs()[l]) == graph_nodes(g0.graphs()[l]),
                forall|q: int| 0 <= q < i ==> #[trigger] self.node_ok(q),
                forall|q: int| 0 <= q < n ==> views(#[trigger] self.nodes@[q].deps@).no_duplicates(),
                forall|l: int| 0 <= l < self.graphs().len() ==> graph_edges(#[trigger] self.graphs()[l]).no_duplicates(),
                forall|l: int, a: int, b: int|
                    0 <= l < self.graphs().len() && #[trigger] has_edge(graph_edges(self.graphs()[l]), a, b)
                        ==> graph_nodes(self.graphs()[l])[b] < i,
                forall|l: int| 0 <= l < self.graphs().len() ==> graph_edges(#[trigger] self.graphs()[l]).len() <= deps_total(self.nodes@, i as int),
                forall|l: int, a: int, b: int|
                    0 <= l < self.graphs().len() && #[trigger] has_edge(graph_edges(self.graphs()[l]), a, b)
                        ==> self.dep_edge(l, a, b),
                forall|q: int, j: int|
                    0 <= q < i && 0 <= j < n && #[trigger] views(self.nodes@[q].deps@).contains(self.nodes@[j].name@)
                        && self.node_layer@[q] == self.node_layer@[j] ==> has_edge(
                        graph_edges(self.graphs()[self.node_layer@[q] as int]),
                        self.node_slot@[j] as int,
                        self.node_slot@[q] as int,
                    ),
            decreases n - i,
        {
            let ne = self.nodes[i].ensure_exists.len();
            let mut k: usize = 0;
            while k < ne
                invariant
                    g0 == *old(self),
                    k <= ne,
                    i < n,
                    n == self.nodes@.len(),
                    ne == self.nodes@[i as int].ensure_exists@.len(),
                    forall|q: int| 0 <= q < n ==> views(#[trigger] self.nodes@[q].deps@).no_duplicates(),
                    forall|l: int| 0 <= l < self.graphs().len() ==> graph_edges(#[trigger] self.graphs()[l]).no_duplicates(),
                    forall|l: int, a: int, b: int|
                        0 <= l < self.graphs().len() && #[trigger] has_edge(graph_edges(self.graphs()[l]), a, b)
                            ==> graph_nodes(self.graphs()[l])[b] < i,
                    forall|l: int| 0 <= l < self.graphs().len() ==> graph_edges(#[trigger] self.graphs()[l]).len() <= deps_total(self.nodes@, i as int),
                    self.placed(),
                    self.comment_str == g0.comment_str,
                    self.layers == g0.layers,
                    self.fallback_layer == g0.fallback_layer,
                    self.include_node_prefixes == g0.include_node_prefixes,
                    self.exclude_node_prefixes == g0.exclude_node_prefixes,
                    self.nodes == g0.nodes,
                    self.node_layer == g0.node_layer,
                    self.node_slot == g0.node_slot,
                    self.graph_is_built == g0.graph_is_built,
                    self.graphs().len() == g0.graphs().len(),
                    forall|l: int| 0 <= l < self.graphs().len() ==> graph_nodes(#[trigger] self.graphs()[l]) == graph_nodes(g0.graphs()[l]),
                    forall|m: int| 0 <= m < k ==> names_of(self.nodes@).contains(
                        #[trigger] self.nodes@[i as int].ensure_exists@[m]@,
                    ),
                decreases ne - k,
            {
                if self.find_node(&self.nodes[i].ensure_exists[k]).is_none() {
                    let err = TopCatError::MissingExist(
                        self.nodes[i].name.clone(),
                        self.nodes[i].ensure_exists[k].clone(),
                    );
                    proof {
                        let ek = self.nodes@[i as int].ensure_exists@[k as int]@;
                        assert(views(self.nodes@[i as int].ensure_exists@)[k as int] == ek);
                        assert(views(self.nodes@[i as int].ensure_exists@).contains(ek));
                        assert(self.nodes@[i as int].name@ == self.nodes@[i as int].name@);
                        assert(self.explains(err));
                        if g0.no_problems() {
                            assert(g0.node_ok(i as int));
                        }
                    }
                    return Err(err);
                }
                k = k + 1;
            }
            let nd = self.nodes[i].deps.len();
            let mut k: usize = 0;
            while k < nd
                invariant
                    g0 == *old(self),
                    k <= nd,
                    i < n,
                    n == self.nodes@.len(),
                    nd == self.nodes@[i as int].deps@.len(),
                    self.placed(),
                    self.comment_str == g0.comment_str,
                    self.layers == g0.layers,
                    self.fallback_layer == g0.fallback_layer,
                    self.include_node_prefixes == g0.include_node_prefixes,
                    self.exclude_node_prefixes == g0.exclude_node_prefixes,
                    self.nodes == g0.nodes,
                    self.node_layer == g0.node_layer,
                    self.node_slot == g0.node_slot,
                    self.graph_is_built == g0.graph_is_built,
                    self.graphs().len() == g0.graphs().len(),
                    forall|l: int| 0 <= l < self.graphs().len() ==> graph_nodes(#[trigger] self.graphs()[l]) == graph_nodes(g0.graphs()[l]),
                    forall|l: int| 0 <= l < self.graphs().len() ==> graph_edges(#[trigger] self.graphs()[l]).len() <= deps_total(self.nodes@, i as int) + k,
                    forall|q: int| 0 <= q < n ==> views(#[trigger] self.nodes@[q].deps@).no_duplicates(),
                    forall|l: int| 0 <= l < self.graphs().len() ==> graph_edges(#[trigger] self.graphs()[l]).no_duplicates(),
                    forall|l: int, a: int, b: int|
                        0 <= l < self.graphs().len() && #[trigger] has_edge(graph_edges(self.graphs()[l]), a, b)
                            ==> graph_nodes(self.graphs()[l])[b] < i || (graph_nodes(self.graphs()[l])[b] == i
                            && views(self.nodes@[i as int].deps@.subrange(0, k as int)).contains(
                            self.nodes@[graph_nodes(self.graphs()[l])[a] as int].name@)),
                    forall|q: int| 0 <= q < i ==> #[trigger] self.node_ok(q),
                    forall|m: int| 0 <= m < ne ==> names_of(self.nodes@).contains(
                        #[trigger] self.nodes@[i as int].ensure_exists@[m]@,
                    ),
                    ne == self.nodes@[i as int].ensure_exists@.len(),
                    forall|m: int| 0 <= m < k ==> names_of(self.nodes@).contains(
                        #[trigger] self.nodes@[i as int].deps@[m]@,
                    ),
                    forall|j: int|
                        0 <= j < n && views(self.nodes@[i as int].deps@.subrange(0, k as int)).contains(#[trigger] self.nodes@[j].name@)
                            ==> self.node_layer@[i as int] >= self.node_layer@[j],
                    forall|l: int, a: int, b: int|
                        0 <= l < self.graphs().len() && #[trigger] has_edge(graph_edges(self.graphs()[l]), a, b)
                            ==> self.dep_edge(l, a, b),
                    forall|q: int, j: int|
                        0 <= q < i && 0 <= j < n && #[trigger] views(self.nodes@[q].deps@).contains(self.nodes@[j].name@)
                            && self.node_layer@[q] == self.node_layer@[j] ==> has_edge(
                            graph_edges(self.graphs()[self.node_layer@[q] as int]),
                            self.node_slot@[j] as int,
                            self.node_slot@[q] as int,
                        ),
                    forall|j: int|
                        0 <= j < n && views(self.nodes@[i as int].deps@.subrange(0, k as int)).contains(#[trigger] self.nodes@[j].name@)
                            && self.node_layer@[i as int] == self.node_layer@[j] ==> has_edge(
                            graph_edges(self.graphs()[self.node_layer@[i as int] as int]),
                            self.node_slot@[j] as int,
                            self.node_slot@[i as int] as int,
                        ),
                decreases nd - k,
            {
                let found = self.find_node(&self.nodes[i].deps[k]);
                let ghost dk = self.nodes@[i as int].deps@[k as int]@;
                proof {
                    assert(views(self.nodes@[i as int].deps@)[k as int] == dk);
                    assert(views(self.nodes@[i as int].deps@.subrange(0, k + 1)) =~= views(self.nodes@[i as int].deps@.subrange(0, k as int)).push(dk));
                }
                match found {
                    None => {
                        let err = TopCatError::MissingDependency(
                            self.nodes[i].name.clone(),
                            self.nodes[i].deps[k].clone(),
                        );
                        proof {
                            assert(views(self.nodes@[i as int].deps@).contains(dk));
                            assert(!names_of(self.nodes@).contains(dk));
                            assert(self.nodes@[i as int].name@ == self.nodes@[i as int].name@);
                            assert(self.explains(err));
                            if g0.no_problems() {
                                assert(g0.node_ok(i as int));
                            }
                        }
                        return Err(err);
                    },
                    Some(j) => {
                        proof {
                            assert forall|jj: int| 0 <= jj < n && #[trigger] self.nodes@[jj].name@ == dk implies jj == j by {
                                if jj != j {
                                    assert(self.nodes@[jj].name@ != self.nodes@[j as int].name@);
                                }
                            }
                        }
                        if self.node_layer[i] < self.node_layer[j] {
                            let mut msg = String::from_str("Node in layer '");
                            msg.append(self.nodes[i].layer.as_str());
                            msg.append("' (index ");
                            let li = decimal(self.node_layer[i]);
                            msg.append(li.as_str());
                            msg.append(") cannot depend on node '");
                            msg.append(self.nodes[i].deps[k].as_str());
                            msg.append("' in layer '");
                            msg.append(self.nodes[j].layer.as_str());
                            msg.append("' (index ");
                            let lj = decimal(self.node_layer[j]);
                            msg.append(lj.as_str());
                            msg.append(")");
                            let err = TopCatError::InvalidDependency(self.nodes[i].name.clone(), msg);
                            proof {
                                assert(views(self.nodes@[i as int].deps@).contains(dk));
                                assert(self.nodes@[j as int].name@ == dk);
                                assert(self.nodes@[i as int].name@ == self.nodes@[i as int].name@);
                                assert(views(self.nodes@[i as int].deps@).contains(self.nodes@[j as int].name@));
                                assert(self.node_layers()[i as int] < self.node_layers()[j as int]);
                                assert(self.explains(err));
                                if g0.no_problems() {
                                    assert(g0.node_ok(i as int));
                                    assert(views(g0.nodes_view()[i as int].deps@).contains(g0.nodes_view()[j as int].name@));
                                    assert(g0.node_layers()[i as int] >= g0.node_layers()[j as int]);
                                }
                            }
                            return Err(err);
                        }
                        if self.node_layer[i] == self.node_layer[j] {
                            let l = self.node_layer[i];
                            if edge_count(&self.layer_graphs[l]) >= MAX_GRAPH_ITEMS - 1 {
                                proof {
                                    assert(graph_edges(self.graphs()[l as int]).len() <= deps_total(self.nodes@, i as int) + k);
                                    assert(deps_total(self.nodes@, i + 1) == deps_total(self.nodes@, i as int) + nd);
                                    lemma_deps_total_grows(self.nodes@, (i + 1) as int, n as int);
                                    assert(deps_total(g0.nodes@, n as int) >= MAX_GRAPH_ITEMS - 1);
                                }
                                return Err(TopCatError::UnknownError(String::from_str("Too many dependencies")));
                            }
                            let a = self.node_slot[j];
                            let b = self.node_slot[i];
                            let ghost prev = *self;
                            proof {
                                let ep0 = graph_edges(prev.graphs()[l as int]);
                                assert(graph_nodes(prev.graphs()[l as int])[b as int] == i);
                                assert(graph_nodes(prev.graphs()[l as int])[a as int] == j);
                                if has_edge(ep0, a as int, b as int) {
                                    let dv = views(self.nodes@[i as int].deps@);
                                    assert(views(self.nodes@[i as int].deps@.subrange(0, k as int)).contains(dk));
                                    let m = choose|m: int| 0 <= m < k && views(self.nodes@[i as int].deps@.subrange(0, k as int))[m] == dk;
                                    assert(dv[m] == dk);
                                    assert(dv[k as int] == dk);
                                }
                                lemma_push_new_edge(ep0, (a as int, b as int));
                            }
                            self.add_layer_edge(l, a, b);
                            proof {
                                assert forall|q: int| 0 <= q < i implies #[trigger] self.node_ok(q) by {
                                    assert(prev.node_ok(q));
                                    assert(self.nodes_view() == prev.nodes_view());
                                    assert(self.node_layers() == prev.node_layers());
                                }
                                let ghost ep = graph_edges(prev.graphs()[l as int]);
                                assert forall|l2: int, a2: int, b2: int|
                                    0 <= l2 < self.graphs().len() && #[trigger] has_edge(graph_edges(self.graphs()[l2]), a2, b2)
                                        implies self.dep_edge(l2, a2, b2) by {
                                    if l2 != l {
                                        assert(self.graphs()[l2] == prev.graphs()[l2]);
                                        assert(prev.dep_edge(l2, a2, b2));
                                    } else {
                                        lemma_has_edge_push(ep, (a as int, b as int), a2, b2);
                                        if has_edge(ep, a2, b2) {
                                            assert(prev.dep_edge(l2, a2, b2));
                                        } else {
                                            assert(graph_nodes(self.graphs()[l2])[b as int] == i);
                                            assert(graph_nodes(self.graphs()[l2])[a as int] == j);
                                        }
                                    }
                                }
                                assert forall|q: int, jj: int|
                                    0 <= q < i && 0 <= jj < n && #[trigger] views(self.nodes@[q].deps@).contains(self.nodes@[jj].name@)
                                        && self.node_layer@[q] == self.node_layer@[jj] implies has_edge(
                                        graph_edges(self.graphs()[self.node_layer@[q] as int]),
                                        self.node_slot@[jj] as int,
                                        self.node_slot@[q] as int,
                                    ) by {
                                    let lq = self.node_layer@[q] as int;
                                    assert(has_edge(graph_edges(prev.graphs()[lq]), self.node_slot@[jj] as int, self.node_slot@[q] as int));
                                    if lq == l {
                                        lemma_has_edge_push(ep, (a as int, b as int), self.node_slot@[jj] as int, self.node_slot@[q] as int);
                                    } else {
                                        assert(self.graphs()[lq] == prev.graphs()[lq]);
                                    }
                                }
                                assert forall|jj: int|
                                    0 <= jj < n && views(prev.nodes@[i as int].deps@.subrange(0, k as int)).contains(#[trigger] self.nodes@[jj].name@)
                                        && self.node_layer@[i as int] == self.node_layer@[jj] implies has_edge(
                                        graph_edges(self.graphs()[self.node_layer@[i as int] as int]),
                                        self.node_slot@[jj] as int,
                                        self.node_slot@[i as int] as int,
                                    ) by {
                                    assert(has_edge(ep, self.node_slot@[jj] as int, self.node_slot@[i as int] as int));
                                    lemma_has_edge_push(ep, (a as int, b as int), self.node_slot@[jj] as int, self.node_slot@[i as int] as int);
                                }
                                lemma_has_edge_push(ep, (a as int, b as int), a as int, b as int);
                                assert forall|l2: int| 0 <= l2 < self.graphs().len() implies graph_edges(#[trigger] self.graphs()[l2]).no_duplicates() by {
                                    if l2 != l {
                                        assert(self.graphs()[l2] == prev.graphs()[l2]);
                                    }
                                }
                                assert forall|l2: int, a2: int, b2: int|
                                    0 <= l2 < self.graphs().len() && #[trigger] has_edge(graph_edges(self.graphs()[l2]), a2, b2)
                                        implies graph_nodes(self.graphs()[l2])[b2] < i || (graph_nodes(self.graphs()[l2])[b2] == i
                                        && views(self.nodes@[i as int].deps@.subrange(0, k + 1)).contains(
                                        self.nodes@[graph_nodes(self.graphs()[l2])[a2] as int].name@)) by {
                                    let sub0 = views(self.nodes@[i as int].deps@.subrange(0, k as int));
                                    let sub1 = views(self.nodes@[i as int].deps@.subrange(0, k + 1));
                                    assert(sub1 =~= sub0.push(dk));
                                    lemma_push_contains(sub0, dk);
                                    if l2 != l {
                                        assert(self.graphs()[l2] == prev.graphs()[l2]);
                                    } else {
                                        lemma_has_edge_push(ep, (a as int, b as int), a2, b2);
                                        if !has_edge(ep, a2, b2) {
                                            assert(graph_nodes(self.graphs()[l2])[a2] == j);
                                        }
                                    }
                                }
                                assert forall|l2: int| 0 <= l2 < self.graphs().len() implies graph_edges(#[trigger] self.graphs()[l2]).len() <= deps_total(self.nodes@, i as int) + k + 1 by {
                                    if l2 != l {
                                        assert(self.graphs()[l2] == prev.graphs()[l2]);
                                    }
                                }
                            }
                        }
                    },
                }
                proof {
                    let sub0 = views(self.nodes@[i as int].deps@.subrange(0, k as int));
                    let sub1 = views(self.nodes@[i as int].deps@.subrange(0, k + 1));
                    assert(sub1 =~= sub0.push(dk));
                    lemma_push_contains(sub0, dk);
                    assert forall|l2: int, a2: int, b2: int|
                        0 <= l2 < self.graphs().len() && #[trigger] has_edge(graph_edges(self.graphs()[l2]), a2, b2)
                            implies graph_nodes(self.graphs()[l2])[b2] < i || (graph_nodes(self.graphs()[l2])[b2] == i
                            && sub1.contains(self.nodes@[graph_nodes(self.graphs()[l2])[a2] as int].name@)) by {
                    }
                }
                k = k + 1;
            }
            proof {
                assert(self.nodes@[i as int].deps@.subrange(0, nd as int) =~= self.nodes@[i as int].deps@);
                assert(self.node_ok(i as int));
                assert(deps_total(self.nodes@, i + 1) == deps_total(self.nodes@, i as int) + nd);
            }
            i = i + 1;
        }
        Ok(())
    }

    /// Adds the edge from `a` to `b` to the graph of layer `l`.
    fn add_layer_edge(&mut self, l: usize, a: usize, b: usize)
        requires
            l < old(self).layer_graphs@.len(),
            a < graph_nodes(old(self).layer_graphs@[l as int]).len(),
            b < graph_nodes(old(self).layer_graphs@[l as int]).len(),
            graph_edges(old(self).layer_graphs@[l as int]).len() < MAX_GRAPH_ITEMS - 1,
        ensures
            final(self).comment_str == old(self).comment_str,
            final(self).layers == old(self).layers,
            final(self).fallback_layer == old(self).fallback_layer,
            final(self).include_node_prefixes == old(self).include_node_prefixes,
            final(self).exclude_node_prefixes == old(self).exclude_node_prefixes,
            final(self).nodes == old(self).nodes,
            final(self).node_layer == old(self).node_layer,
            final(self).node_slot == old(self).node_slot,
            final(self).graph_is_built == old(self).graph_is_built,
            final(self).layer_graphs@.len() == old(self).layer_graphs@.len(),
            forall|m: int| 0 <= m < final(self).layer_graphs@.len() && m != l ==> #[trigger] final(self).layer_graphs@[m] == old(self).layer_graphs@[m],
            graph_nodes(final(self).layer_graphs@[l as int]) == graph_nodes(old(self).layer_graphs@[l as int]),
            graph_edges(final(self).layer_graphs@[l as int]) == graph_edges(old(self).layer_graphs@[l as int]).push((a as int, b as int)),
    {
        let mut g = self.layer_graphs.remove(l);
        add_edge(&mut g, a, b);
        self.layer_graphs.insert(l, g);
    }

    /// The index of the node named `x`.
    pub open spec fn index_named(&self, x: Seq<char>) -> int {
        choose|j: int| 0 <= j < self.nodes_view().len() && self.nodes_view()[j].name@ == x
    }

    /// `n` is a copy of a registered node.
    pub open spec fn is_registered(&self, n: FileNode) -> bool {
        &&& names_of(self.nodes_view()).contains(n.name@)
        &&& same_links(n, self.nodes_view()[self.index_named(n.name@)])
    }

    /// Each node of `c` is a copy of a registered node of layer `l`.
    pub open spec fn registered_in_layer(&self, c: Seq<FileNode>, l: int) -> bool {
        forall|q: int|
            0 <= q < c.len() ==> self.is_registered(#[trigger] c[q]) && self.node_layers()[self.index_named(
                c[q].name@,
            )] == l
    }

    /// Each node of `c` is a copy of a registered node, all of one layer.
    pub open spec fn registered_cycle(&self, c: Seq<FileNode>) -> bool {
        c.len() > 0 && self.registered_in_layer(c, self.node_layers()[self.index_named(c[0].name@)] as int)
    }

    /// The node at index `w` is registered under its own name.
    proof fn lemma_index_named(&self, w: int)
        requires
            self.nodes_wf(),
            0 <= w < self.nodes_view().len(),
        ensures
            self.index_named(self.nodes_view()[w].name@) == w,
            self.is_registered(self.nodes_view()[w]),
    {
        let nodes = self.nodes_view();
        let x = nodes[w].name@;
        assert(names_of(nodes)[w] == x);
        let j = self.index_named(x);
        assert(nodes[j].name@ == x);
        if j != w {
            assert(nodes[j].name@ != nodes[w].name@);
        }
    }

    /// Every layer's graph is acyclic.
    pub open spec fn all_acyclic(&self) -> bool {
        forall|l: int| 0 <= l < self.graphs().len() ==> is_acyclic(graph_edges(#[trigger] self.graphs()[l]))
    }

    /// The node at the `k`th step of a walk without repeats is named unlike
    /// the nodes at the earlier steps.
    proof fn lemma_new_name_distinct(&self, g: DiGraph<usize, ()>, walk: Seq<usize>, cyc: Seq<FileNode>, k: int, w: int)
        requires
            self.placed(),
            exists|l: int| 0 <= l < self.graphs().len() && self.graphs()[l] == g,
            walk.no_duplicates(),
            0 <= k < walk.len(),
            cyc.len() == k,
            forall|q: int| 0 <= q < walk.len() ==> #[trigger] walk[q] < graph_nodes(g).len(),
            w == graph_nodes(g)[walk[k] as int],
            forall|q: int| 0 <= q < k ==> (#[trigger] cyc[q]).name@ == self.nodes_view()[graph_nodes(g)[walk[q] as int] as int].name@,
        ensures
            forall|q: int| 0 <= q < k ==> (#[trigger] cyc[q]).name@ != self.nodes_view()[w].name@,
    {
        let l = choose|l: int| 0 <= l < self.graphs().len() && self.graphs()[l] == g;
        assert forall|q: int| 0 <= q < k implies (#[trigger] cyc[q]).name@ != self.nodes_view()[w].name@ by {
            let wq = graph_nodes(g)[walk[q] as int];
            assert(walk[q] != walk[k]);
            assert(self.node_slots()[wq as int] == walk[q]);
            assert(self.node_slots()[w] == walk[k]);
        }
    }

    /// Checks each layer's graph for cycles, and reports the elementary
    /// cycles found in every layer that has one, each once.
    #[verifier::rlimit(80)]
    fn check_cyclic_dependencies(&self) -> (r: Result<(), TopCatError>)
        requires
            self.placed(),
            self.edges_match(),
        ensures
            r is Ok <==> self.all_acyclic(),
            r is Err ==> (r matches Err(TopCatError::CyclicDependency(cs)) && cs@.len() > 0 && cycles_distinct(cs@)
                && forall|k: int|
                0 <= k < cs@.len() ==> is_requires_cycle(#[trigger] cs@[k]@) && starts_at_least(cs@[k]@)
                    && self.registered_cycle(cs@[k]@) && names_distinct(cs@[k]@)),
    {
        let mut cycles: Vec<Vec<FileNode>> = Vec::new();
        let mut any = false;
        let mut l: usize = 0;
        while l < self.layer_graphs.len()
            invariant
                l <= self.layer_graphs@.len(),
                self.placed(),
                self.edges_match(),
                any <==> exists|m: int| 0 <= m < l && !is_acyclic(graph_edges(#[trigger] self.graphs()[m])),
                any ==> cycles@.len() > 0,
                forall|k: int| 0 <= k < cycles@.len() ==> is_requires_cycle(#[trigger] cycles@[k]@) && starts_at_least(cycles@[k]@)
                    && self.registered_cycle(cycles@[k]@) && names_distinct(cycles@[k]@),
                cycles_distinct(cycles@),
            decreases self.layer_graphs@.len() - l,
        {
            let g = &self.layer_graphs[l];
            if is_cyclic(g) {
                any = true;
                let found = elementary_cycles(g);
                let mut c: usize = 0;
                while c < found.len()
                    invariant
                        c <= found@.len(),
                        l < self.layer_graphs@.len(),
                        g == self.layer_graphs@[l as int],
                        self.placed(),
                        self.edges_match(),
                        forall|q: int| 0 <= q < found@.len() ==> is_closed_walk(
                            graph_edges(*g),
                            (#[trigger] found@[q])@.map_values(|x: usize| x as int),
                        ),
                        forall|k: int| 0 <= k < cycles@.len() ==> is_requires_cycle(#[trigger] cycles@[k]@) && starts_at_least(cycles@[k]@)
                            && self.registered_cycle(cycles@[k]@) && names_distinct(cycles@[k]@),
                        cycles_distinct(cycles@),
                        forall|q: int| 0 <= q < found@.len() ==> (#[trigger] found@[q])@.no_duplicates(),
                        found@.len() > 0 ==> (c > 0 ==> cycles@.len() > 0),
                    decreases found@.len() - c,
                {
                    let walk = &found[c];
                    let ghost wv = walk@.map_values(|x: usize| x as int);
                    assert(is_closed_walk(graph_edges(*g), wv));
                    proof {
                        lemma_walk_in_range(graph_edges(*g), graph_nodes(*g).len(), wv);
                        assert forall|q: int| 0 <= q < walk@.len() implies #[trigger] walk@[q] < graph_nodes(*g).len() by {
                            assert(wv[q] == walk@[q] as int);
                        }
                    }
                    let mut cyc: Vec<FileNode> = Vec::new();
                    let mut k: usize = 0;
                    while k < walk.len()
                        invariant
                            k <= walk@.len(),
                            l < self.layer_graphs@.len(),
                            g == self.layer_graphs@[l as int],
                            self.placed(),
                            is_closed_walk(graph_edges(*g), wv),
                            wv == walk@.map_values(|x: usize| x as int),
                            walk@.no_duplicates(),
                            forall|q: int| 0 <= q < walk@.len() ==> #[trigger] walk@[q] < graph_nodes(*g).len(),
                            cyc@.len() == k,
                            names_distinct(cyc@),
                            forall|q: int| 0 <= q < k ==> {
                                let w = graph_nodes(*g)[walk@[q] as int] as int;
                                &&& (#[trigger] cyc@[q]).name@ == self.nodes@[w].name@
                                &&& cyc@[q].deps@ == self.nodes@[w].deps@
                                &&& same_links(cyc@[q], self.nodes@[w])
                                &&& self.is_registered(cyc@[q])
                                &&& self.node_layers()[self.index_named(cyc@[q].name@)] == l
                            },
                        decreases walk@.len() - k,
                    {
                        proof {
                            assert(wv[k as int] == walk@[k as int] as int);
                        }
                        let w = node_weight(g, walk[k]);
                        proof {
                            self.lemma_index_named(w as int);
                        }
                        let ghost cyc0 = cyc@;
                        proof {
                            self.lemma_new_name_distinct(*g, walk@, cyc0, k as int, w as int);
                        }
                        cyc.push(self.nodes[w].copy());
                        proof {
                            lemma_push_distinct_name(cyc0, cyc@);
                        }
                        k = k + 1;
                    }
                    proof {
                        let e = graph_edges(*g);
                        let n = cyc@.len();
                        assert forall|q: int| 0 <= q < n - 1 implies views(#[trigger] cyc@[q + 1].deps@).contains(cyc@[q].name@) by {
                            assert(has_edge(e, wv[q], wv[q + 1]));
                            assert(self.dep_edge(l as int, wv[q], wv[q + 1]));
                            assert(cyc@[q + 1].deps@ == self.nodes@[graph_nodes(*g)[walk@[q + 1] as int] as int].deps@);
                        }
                        assert(has_edge(e, wv[n - 1], wv[0]));
                        assert(self.dep_edge(l as int, wv[n - 1], wv[0]));
                        assert(cyc@[0].deps@ == self.nodes@[graph_nodes(*g)[walk@[0] as int] as int].deps@);
                    }
                    let ghost before = cyc@;
                    proof {
                        assert(self.registered_in_layer(before, l as int));
                    }
                    let cyc = rotate_to_least(&cyc);
                    proof {
                        let m = choose|m: int| 0 <= m < before.len() && #[trigger] rotated_by(before, cyc@, m);
                        let n = before.len() as int;
                        assert forall|t: int| 0 <= t < cyc@.len() implies self.is_registered(#[trigger] cyc@[t])
                            && self.node_layers()[self.index_named(cyc@[t].name@)] == l by {
                            let src = if t < n - m { m + t } else { t - (n - m) };
                            assert(same_links(cyc@[t], before[src]));
                            assert(self.is_registered(before[src]));
                        }
                        assert(self.registered_in_layer(cyc@, l as int));
                        assert(self.registered_cycle(cyc@));
                    }
                    if !has_cycle(&cycles, &cyc) {
                        let ghost cs0 = cycles@;
                        cycles.push(cyc);
                        proof {
                            assert forall|i: int, j: int| 0 <= i < cycles@.len() && 0 <= j < cycles@.len() && i != j
                                implies !same_names(#[trigger] cycles@[i]@, #[trigger] cycles@[j]@) by {
                                if i < cs0.len() && j < cs0.len() {
                                    assert(cycles@[i] == cs0[i]);
                                    assert(cycles@[j] == cs0[j]);
                                } else if i < cs0.len() {
                                    assert(cycles@[i] == cs0[i]);
                                    assert(!same_names(cs0[i]@, cycles@[j]@));
                                } else {
                                    assert(cycles@[j] == cs0[j]);
                                    assert(!same_names(cs0[j]@, cycles@[i]@));
                                    if same_names(cycles@[i]@, cycles@[j]@) {
                                        assert forall|t: int| 0 <= t < cycles@[j]@.len() implies #[trigger] cycles@[j]@[t].name@ == cycles@[i]@[t].name@ by {
                                            assert(cycles@[i]@[t].name@ == cycles@[j]@[t].name@);
                                        }
                                    }
                                }
                            }
                        }
                    }
                    c = c + 1;
                }
            }
            l = l + 1;
        }
        if any {
            Err(TopCatError::CyclicDependency(cycles))
        } else {
            Ok(())
        }
    }

    /// What a built graph satisfies.
    pub open spec fn built_wf(&self) -> bool {
        &&& self.placed()
        &&& self.edges_match()
        &&& self.no_problems()
        &&& self.all_acyclic()
    }

    /// The graph is either not built yet, or built and sound.
    pub open spec fn wf(&self) -> bool {
        &&& self.nodes_wf()
        &&& self.is_built() ==> self.built_wf()
    }

    /// No cycle of requirements among the nodes: no list of nodes in
    /// which each requires the one before and the first requires the last.
    pub open spec fn no_requires_cycle(&self) -> bool {
        forall|c: Seq<int>| !is_requires_walk(self.nodes_view(), c)
    }

    /// Along a cycle of requirements the layers never fall from the start.
    proof fn lemma_layers_rise_from_start(&self, c: Seq<int>, k: int)
        requires
            self.nodes_wf(),
            self.no_problems(),
            is_requires_walk(self.nodes_view(), c),
            0 <= k < c.len(),
        ensures
            self.node_layers()[c[0]] <= self.node_layers()[c[k]],
        decreases k,
    {
        if k > 0 {
            self.lemma_layers_rise_from_start(c, k - 1);
            assert(views(self.nodes_view()[c[(k - 1) + 1]].deps@).contains(self.nodes_view()[c[k - 1]].name@));
            assert(self.node_ok(c[k]));
            assert(0 <= c[k - 1] < self.nodes_view().len());
        }
    }

    /// Along a cycle of requirements the layers never rise past the end.
    proof fn lemma_layers_rise_to_end(&self, c: Seq<int>, k: int)
        requires
            self.nodes_wf(),
            self.no_problems(),
            is_requires_walk(self.nodes_view(), c),
            0 <= k < c.len(),
        ensures
            self.node_layers()[c[k]] <= self.node_layers()[c[c.len() - 1]],
        decreases c.len() - k,
    {
        if k < c.len() - 1 {
            self.lemma_layers_rise_to_end(c, k + 1);
            assert(views(self.nodes_view()[c[k + 1]].deps@).contains(self.nodes_view()[c[k]].name@));
            assert(self.node_ok(c[k + 1]));
        }
    }

    /// Without dependency problems, a cycle of requirements lies in one
    /// layer and is a cycle of that layer's graph.
    proof fn lemma_requires_cycle_in_graph(&self, c: Seq<int>)
        requires
            self.placed(),
            self.edges_match(),
            self.no_problems(),
            is_requires_walk(self.nodes_view(), c),
        ensures
            !self.all_acyclic(),
    {
        let nodes = self.nodes_view();
        let len = c.len() as int;
        let l = self.node_layers()[c[0]] as int;
        assert(views(nodes[c[0]].deps@).contains(nodes[c[len - 1]].name@));
        assert(self.node_ok(c[0]));
        assert forall|k: int| 0 <= k < len implies #[trigger] self.node_layers()[c[k]] == l by {
            self.lemma_layers_rise_from_start(c, k);
            self.lemma_layers_rise_to_end(c, k);
            self.lemma_layers_rise_from_start(c, len - 1);
        }
        assert(0 <= c[0] < nodes.len());
        assert(0 <= l < self.graphs().len());
        let g = self.graphs()[l];
        let cw = Seq::new(c.len(), |k: int| self.node_slots()[c[k]] as int);
        assert forall|k: int| 0 <= k < len implies graph_nodes(g)[#[trigger] cw[k]] == c[k] && 0 <= cw[k] < graph_nodes(g).len() by {
            assert(0 <= c[k] < nodes.len());
            assert(self.node_layers()[c[k]] == l);
        }
        assert forall|k: int| 0 <= k < len - 1 implies has_edge(graph_edges(g), #[trigger] cw[k], cw[k + 1]) by {
            assert(graph_nodes(g)[cw[k]] == c[k]);
            assert(graph_nodes(g)[cw[k + 1]] == c[k + 1]);
            assert(self.dep_edge(l, cw[k], cw[k + 1]));
        }
        assert(graph_nodes(g)[cw[len - 1]] == c[len - 1]);
        assert(graph_nodes(g)[cw[0]] == c[0]);
        assert(self.dep_edge(l, cw[len - 1], cw[0]));
        assert(has_edge(graph_edges(g), cw[len - 1], cw[0]));
        assert(is_closed_walk(graph_edges(g), cw));
    }

    /// A cycle in a layer's graph is a cycle of requirements.
    proof fn lemma_graph_cycle_is_requires_cycle(&self, l: int)
        requires
            self.placed(),
            self.edges_match(),
            0 <= l < self.graphs().len(),
            !is_acyclic(graph_edges(self.graphs()[l])),
        ensures
            !self.no_requires_cycle(),
    {
        let g = self.graphs()[l];
        let e = graph_edges(g);
        let cw = choose|c: Seq<int>| is_closed_walk(e, c);
        let len = cw.len() as int;
        let c = Seq::new(cw.len(), |k: int| graph_nodes(g)[cw[k]] as int);
        let nodes = self.nodes_view();
        assert forall|k: int| 0 <= k < len implies 0 <= #[trigger] cw[k] < graph_nodes(g).len() by {
            if k < len - 1 {
                assert(has_edge(e, cw[k], cw[k + 1]));
                assert(self.dep_edge(l, cw[k], cw[k + 1]));
            } else {
                assert(has_edge(e, cw[len - 1], cw[0]));
                assert(self.dep_edge(l, cw[len - 1], cw[0]));
            }
        }
        assert forall|k: int| 0 <= k < len - 1 implies views(nodes[#[trigger] c[k + 1]].deps@).contains(nodes[c[k]].name@) by {
            assert(has_edge(e, cw[k], cw[k + 1]));
            assert(self.dep_edge(l, cw[k], cw[k + 1]));
        }
        assert(has_edge(e, cw[len - 1], cw[0]));
        assert(self.dep_edge(l, cw[len - 1], cw[0]));
        assert forall|k: int| 0 <= k < len implies 0 <= #[trigger] c[k] < nodes.len() by {
            assert(0 <= cw[k] < graph_nodes(g).len());
        }
        assert(is_requires_walk(nodes, c));
    }

    /// Reads the files' headers, registers their nodes, builds each layer's
    /// graph and checks it. `files` holds each file's path and lines.
    ///
    /// It succeeds exactly when no header is rejected, the names are
    /// distinct, every name asserted or required is a node's, no node
    /// requires one of a later layer, no requirements form a cycle, and the
    /// graphs' index limits hold.
    pub fn build_graph(&mut self, files: &Vec<(String, Vec<String>)>) -> (r: Result<(), TopCatError>)
        requires
            old(self).nodes_wf(),
            old(self).nodes_view().len() == 0,
            !old(self).is_built(),
        ensures
            final(self).wf(),
            r is Ok <==> final(self).is_built(),
            final(self).comment_view() == old(self).comment_view(),
            final(self).layers_view() == old(self).layers_view(),
            final(self).fallback_view() == old(self).fallback_view(),
            final(self).include_prefixes() == old(self).include_prefixes(),
            final(self).exclude_prefixes() == old(self).exclude_prefixes(),
            r is Ok ==> old(self).files_ok(files@),
            old(self).files_ok(files@) ==> nodes_made(final(self).nodes_view(), old(self).made_all(files@)),
            old(self).files_ok(files@) && final(self).no_problems() && final(self).no_requires_cycle()
                && deps_total(final(self).nodes_view(), final(self).nodes_view().len() as int) < MAX_GRAPH_ITEMS - 1
                ==> r is Ok,
            r is Ok ==> final(self).no_problems() && final(self).no_requires_cycle(),
            r is Ok ==> forall|l: int|
                0 <= l < final(self).graphs().len() ==> graph_edges(#[trigger] final(self).graphs()[l]).no_duplicates(),
            !old(self).files_ok(files@) ==> (r matches Err(e) && (e is NameClash || e is InvalidFileHeader
                || e is UnknownError)),
            old(self).files_ok(files@) && !final(self).no_problems() ==> (r matches Err(e) && (
                final(self).explains(e) || (e is UnknownError && deps_total(final(self).nodes_view(),
                final(self).nodes_view().len() as int) >= MAX_GRAPH_ITEMS - 1))),
            old(self).files_ok(files@) && final(self).no_problems() && !final(self).no_requires_cycle()
                && deps_total(final(self).nodes_view(), final(self).nodes_view().len() as int) < MAX_GRAPH_ITEMS - 1
                ==> r matches Err(TopCatError::CyclicDependency(_)),
            match r {
                Err(TopCatError::NameClash(name, p1, p2)) => !old(self).files_ok(files@) && exists|k1: int, k2: int|
                    0 <= k1 < files@.len() && 0 <= k2 < files@.len() && k1 != k2
                        && old(self).makes_node(#[trigger] files@[k1]) && old(self).makes_node(
                        #[trigger] files@[k2],
                    ) && files@[k1].0@ == p1@ && files@[k2].0@ == p2@ && old(self).header_of(
                        files@[k1],
                    )->Ok_0.name == name@ && old(self).header_of(files@[k2])->Ok_0.name == name@,
                Err(TopCatError::CyclicDependency(cs)) => {
                    &&& old(self).files_ok(files@)
                    &&& final(self).no_problems()
                    &&& !final(self).no_requires_cycle()
                    &&& cs@.len() > 0
                    &&& cycles_distinct(cs@)
                    &&& forall|k: int|
                        0 <= k < cs@.len() ==> is_requires_cycle(#[trigger] cs@[k]@) && starts_at_least(cs@[k]@)
                            && final(self).registered_cycle(cs@[k]@) && names_distinct(cs@[k]@)
                },
                Err(TopCatError::InvalidFileHeader(p, _)) => !old(self).files_ok(files@) && exists|k: int|
                    0 <= k < files@.len() && files@[k].0@ == p@ && #[trigger] old(self).rejects(files@[k]),
                Err(TopCatError::UnknownError(_)) => old(self).made_all(files@).len() >= MAX_GRAPH_ITEMS
                    || deps_total(final(self).nodes_view(), final(self).nodes_view().len() as int)
                    >= MAX_GRAPH_ITEMS - 1,
                Err(e) => final(self).explains(e),
                Ok(_) => true,
            },
    {
        let ghost g0 = *self;
        let added = self.add_files(files);
        match added {
            Ok(()) => {},
            Err(e) => {
                proof {
                    assert(g0 == *old(self));
                    if e is NameClash {
                        assert(added matches Err(TopCatError::NameClash(_, _, _)));
                    }
                    if e is InvalidFileHeader {
                        assert(added matches Err(TopCatError::InvalidFileHeader(_, _)));
                    }
                }
                return Err(e);
            },
        }
        self.add_nodes_to_graphs();
        let ghost pre = *self;
        proof {
            let m = g0.made_all(files@);
            assert forall|q: int| 0 <= q < self.nodes@.len() implies views(#[trigger] self.nodes@[q].deps@).no_duplicates() by {
                assert(node_of(self.nodes@[q], m[q].0, m[q].1));
            }
        }
        let validated = self.validate_dependencies();
        match validated {
            Ok(()) => {},
            Err(e) => {
                proof {
                    assert(self.nodes_view() == pre.nodes_view());
                    assert(self.node_layers() == pre.node_layers());
                    if self.no_problems() {
                        assert forall|i: int| 0 <= i < pre.nodes_view().len() implies #[trigger] pre.node_ok(i) by {
                            assert(self.node_ok(i));
                        }
                    }
                    if e is UnknownError {
                        assert(validated matches Err(TopCatError::UnknownError(_)));
                    }
                }
                return Err(e);
            },
        }
        let checked = self.check_cyclic_dependencies();
        match checked {
            Ok(()) => {},
            Err(e) => {
                proof {
                    let l = choose|l: int| 0 <= l < self.graphs().len() && !is_acyclic(graph_edges(#[trigger] self.graphs()[l]));
                    self.lemma_graph_cycle_is_requires_cycle(l);
                    assert(checked matches Err(TopCatError::CyclicDependency(_)));
                }
                return Err(e);
            },
        }
        proof {
            assert forall|c: Seq<int>| !is_requires_walk(self.nodes_view(), c) by {
                if is_requires_walk(self.nodes_view(), c) {
                    self.lemma_requires_cycle_in_graph(c);
                }
            }
        }
        let ghost before = *self;
        self.graph_is_built = true;
        proof {
            assert forall|l: int| 0 <= l < self.graphs().len() implies graph_edges(#[trigger] self.graphs()[l]).no_duplicates() by {
                assert(self.graphs()[l] == before.graphs()[l]);
            }
            assert(self.nodes_view() == before.nodes_view());
            assert(self.graphs() == before.graphs());
            assert(self.node_layers() == before.node_layers());
            assert(self.node_slots() == before.node_slots());
            assert(self.placed());
            assert(self.edges_match());
            assert forall|i: int| 0 <= i < self.nodes_view().len() implies #[trigger] self.node_ok(i) by {
                assert(before.node_ok(i));
            }
            assert(self.all_acyclic());
        }
        Ok(())
    }

    /// `p` runs from a seed through requirements: each entry after the first
    /// is a requirement of the node named by the entry before it.
    pub open spec fn is_reach_path(&self, seeds: Seq<Seq<char>>, p: Seq<Seq<char>>) -> bool {
        &&& p.len() >= 1
        &&& seeds.contains(p[0])
        &&& forall|i: int|
            0 <= i < p.len() - 1 ==> names_of(self.nodes_view()).contains(#[trigger] p[i]) && views(
                self.nodes_view()[self.index_named(p[i])].deps@,
            ).contains(p[i + 1])
    }

    /// `x` is a seed, or a requirement of a name reached from the seeds.
    pub open spec fn reaches(&self, seeds: Seq<Seq<char>>, x: Seq<char>) -> bool {
        exists|p: Seq<Seq<char>>| #[trigger] self.is_reach_path(seeds, p) && p.last() == x
    }

    /// Every requirement of every node reached from the seeds is a node's name.
    pub open spec fn reached_deps_exist(&self, seeds: Seq<Seq<char>>) -> bool {
        forall|x: Seq<char>, d: Seq<char>|
            self.reaches(seeds, x) && names_of(self.nodes_view()).contains(x) && #[trigger] views(
                self.nodes_view()[self.index_named(x)].deps@,
            ).contains(d) ==> names_of(self.nodes_view()).contains(d)
    }

    /// Every entry of a list built as the closure is built is reached.
    proof fn lemma_reaches(&self, seeds: Seq<Seq<char>>, req: Seq<Seq<char>>, k: int)
        requires
            self.nodes_wf(),
            0 <= k < req.len(),
            forall|q: int|
                0 <= q < req.len() ==> seeds.contains(#[trigger] req[q]) || exists|m: int, j: int|
                    0 <= m < q && 0 <= j < self.nodes_view().len() && #[trigger] names_and_requires(
                        self.nodes_view()[j],
                        req[m],
                        req[q],
                    ),
        ensures
            self.reaches(seeds, req[k]),
        decreases k,
    {
        if seeds.contains(req[k]) {
            let p = seq![req[k]];
            assert(self.is_reach_path(seeds, p));
        } else {
            let nodes = self.nodes_view();
            let (m, j) = choose|m: int, j: int|
                0 <= m < k && 0 <= j < nodes.len() && #[trigger] names_and_requires(nodes[j], req[m], req[k]);
            self.lemma_reaches(seeds, req, m);
            let p = choose|p: Seq<Seq<char>>| #[trigger] self.is_reach_path(seeds, p) && p.last() == req[m];
            self.lemma_index_named(j);
            assert(names_of(nodes)[j] == req[m]);
            let p2 = p.push(req[k]);
            assert forall|i: int| 0 <= i < p2.len() - 1 implies names_of(nodes).contains(#[trigger] p2[i]) && views(
                nodes[self.index_named(p2[i])].deps@,
            ).contains(p2[i + 1]) by {
                if i < p.len() - 1 {
                    assert(p2[i] == p[i]);
                    assert(p2[i + 1] == p[i + 1]);
                } else {
                    assert(p2[i] == req[m]);
                }
            }
            assert(self.is_reach_path(seeds, p2));
        }
    }

    /// Every name that a node requires is the name of a node.
    pub open spec fn deps_exist(&self) -> bool {
        forall|i: int, d: Seq<char>|
            0 <= i < self.nodes_view().len() && #[trigger] views(self.nodes_view()[i].deps@).contains(d)
                ==> names_of(self.nodes_view()).contains(d)
    }

    /// `req` is the closure of `seeds` under the requirements of the nodes:
    /// it holds each seed, each requirement of a node it names, and nothing
    /// that is not a seed or a requirement of a node named before it.
    pub open spec fn is_closure(&self, seeds: Seq<Seq<char>>, req: Seq<Seq<char>>) -> bool {
        let nodes = self.nodes_view();
        &&& req.no_duplicates()
        &&& forall|x: Seq<char>| #[trigger] seeds.contains(x) ==> req.contains(x)
        &&& forall|m: int, j: int, d: Seq<char>|
            0 <= m < req.len() && 0 <= j < nodes.len() && nodes[j].name@ == req[m] && #[trigger] views(
                nodes[j].deps@,
            ).contains(d) && #[trigger] req[m] == req[m] ==> req.contains(d)
        &&& forall|k: int|
            0 <= k < req.len() ==> seeds.contains(#[trigger] req[k]) || exists|m: int, j: int|
                0 <= m < k && 0 <= j < nodes.len() && #[trigger] names_and_requires(nodes[j], req[m], req[k])
    }

    /// A list of distinct names, each a seed or a node's name, is no longer
    /// than the seeds and the nodes together.
    proof fn lemma_required_bounded(&self, seeds: Seq<Seq<char>>, req: Seq<Seq<char>>)
        requires
            req.no_duplicates(),
            forall|k: int| 0 <= k < req.len() ==> seeds.contains(#[trigger] req[k]) || names_of(self.nodes@).contains(req[k]),
        ensures
            req.len() <= seeds.len() + self.nodes@.len(),
    {
        let names = names_of(self.nodes@);
        let a = seeds.to_set();
        let b = names.to_set();
        req.unique_seq_to_set();
        seeds.lemma_cardinality_of_set();
        names.lemma_cardinality_of_set();
        vstd::set_lib::lemma_len_union(a, b);
        assert forall|x: Seq<char>| req.to_set().contains(x) implies a.union(b).contains(x) by {
            let k = choose|k: int| 0 <= k < req.len() && req[k] == x;
        }
        vstd::set_lib::lemma_len_subset(req.to_set(), a.union(b));
    }

    /// The names of `initial_nodes` and, transitively, all they require.
    pub fn find_required_nodes(&self, initial_nodes: &Vec<String>) -> (r: Result<Vec<String>, TopCatError>)
        requires
            self.nodes_wf(),
        ensures
            r matches Ok(req) ==> self.is_closure(views(initial_nodes@), views(req@)),
            r matches Ok(req) ==> forall|x: Seq<char>|
                #[trigger] views(req@).contains(x) ==> names_of(self.nodes_view()).contains(x),
            self.deps_exist() ==> (r is Ok <==> forall|x: Seq<char>|
                #[trigger] views(initial_nodes@).contains(x) ==> names_of(self.nodes_view()).contains(x)),
            r matches Err(e) ==> e is UnknownError || (e is MissingDependency && self.explains(e)),
            match r {
                Err(TopCatError::MissingDependency(a, b)) => {
                    &&& self.reaches(views(initial_nodes@), a@)
                    &&& names_of(self.nodes_view()).contains(a@)
                    &&& views(self.nodes_view()[self.index_named(a@)].deps@).contains(b@)
                    &&& !names_of(self.nodes_view()).contains(b@)
                },
                Err(TopCatError::UnknownError(_)) => exists|x: Seq<char>|
                    #[trigger] views(initial_nodes@).contains(x) && !names_of(self.nodes_view()).contains(x),
                _ => true,
            },
            (forall|x: Seq<char>| #[trigger] views(initial_nodes@).contains(x) ==> names_of(self.nodes_view()).contains(x))
                && self.reached_deps_exist(views(initial_nodes@)) ==> r is Ok,
    {
        let ghost seeds = views(initial_nodes@);
        let ghost nodes = self.nodes@;
        let mut required: Vec<String> = Vec::new();
        let mut s: usize = 0;
        while s < initial_nodes.len()
            invariant
                s <= initial_nodes@.len(),
                seeds == views(initial_nodes@),
                views(required@).no_duplicates(),
                forall|x: Seq<char>| #[trigger] views(initial_nodes@.subrange(0, s as int)).contains(x) ==> views(required@).contains(x),
                forall|k: int| 0 <= k < required@.len() ==> seeds.contains(#[trigger] views(required@)[k]),
            decreases initial_nodes@.len() - s,
        {
            let ghost before = views(required@);
            if !contains_name(&required, &initial_nodes[s]) {
                required.push(initial_nodes[s].clone());
                proof {
                    assert(views(required@) =~= before.push(initial_nodes@[s as int]@));
                    lemma_push_contains(before, initial_nodes@[s as int]@);
                }
            }
            proof {
                assert(views(initial_nodes@)[s as int] == initial_nodes@[s as int]@);
                assert(views(initial_nodes@.subrange(0, s + 1)) =~= views(initial_nodes@.subrange(0, s as int)).push(initial_nodes@[s as int]@));
                lemma_push_contains(views(initial_nodes@.subrange(0, s as int)), initial_nodes@[s as int]@);
                assert(views(required@).contains(initial_nodes@[s as int]@));
                assert forall|x: Seq<char>| #[trigger] views(initial_nodes@.subrange(0, s + 1)).contains(x) implies views(required@).contains(x) by {
                    if x != initial_nodes@[s as int]@ {
                        let q = choose|q: int| 0 <= q < s + 1 && #[trigger] views(initial_nodes@.subrange(0, s + 1))[q] == x;
                        assert(views(initial_nodes@.subrange(0, s + 1))[s as int] == initial_nodes@[s as int]@);
                        assert(q != s);
                        assert(views(initial_nodes@.subrange(0, s as int))[q] == x);
                        assert(views(initial_nodes@.subrange(0, s as int)).contains(x));
                        assert(before.contains(x));
                    }
                }
                assert forall|k: int| 0 <= k < required@.len() implies seeds.contains(#[trigger] views(required@)[k]) by {
                    if k < before.len() {
                        assert(views(required@)[k] == before[k]);
                    }
                }
            }
            s = s + 1;
        }
        proof {
            assert(initial_nodes@.subrange(0, s as int) =~= initial_nodes@);
        }
        let mut head: usize = 0;
        while head < required.len()
            invariant
                head <= required@.len(),
                self.nodes_wf(),
                nodes == self.nodes@,
                seeds == views(initial_nodes@),
                views(required@).no_duplicates(),
                forall|x: Seq<char>| #[trigger] seeds.contains(x) ==> views(required@).contains(x),
                forall|k: int| 0 <= k < required@.len() ==> seeds.contains(#[trigger] views(required@)[k])
                    || names_of(nodes).contains(views(required@)[k]),
                forall|k: int| 0 <= k < head ==> names_of(nodes).contains(#[trigger] views(required@)[k]),
                forall|m: int, j: int, d: Seq<char>|
                    0 <= m < head && 0 <= j < nodes.len() && nodes[j].name@ == views(required@)[m]
                        && #[trigger] views(nodes[j].deps@).contains(d) && #[trigger] views(required@)[m] == views(required@)[m]
                        ==> views(required@).contains(d),
                forall|k: int|
                    0 <= k < required@.len() ==> seeds.contains(#[trigger] views(required@)[k]) || exists|m: int, j: int|
                        0 <= m < k && 0 <= j < nodes.len() && #[trigger] names_and_requires(nodes[j], views(required@)[m], views(required@)[k]),
            decreases initial_nodes@.len() + nodes.len() - head,
        {
            proof {
                self.lemma_required_bounded(seeds, views(required@));
            }
            let found = self.find_node(&required[head]);
            let ghost rh = views(required@)[head as int];
            match found {
                None => {
                    proof {
                        if (forall|x: Seq<char>| #[trigger] seeds.contains(x) ==> names_of(nodes).contains(x)) {
                            assert(names_of(nodes).contains(rh));
                        }
                    }
                    proof {
                        assert(seeds.contains(rh));
                    }
                    let mut msg = String::from_str("Node '");
                    msg.append(required[head].as_str());
                    msg.append("' not found in name_map during dependency traversal.");
                    return Err(TopCatError::UnknownError(msg));
                },
                Some(j) => {
                    proof {
                        assert(names_of(nodes)[j as int] == rh);
                    }
                    let nd = self.nodes[j].deps.len();
                    let ghost dj = views(nodes[j as int].deps@);
                    let mut k: usize = 0;
                    while k < nd
                        invariant
                            k <= nd,
                            head < required@.len(),
                            j < nodes.len(),
                            nd == nodes[j as int].deps@.len(),
                            dj == views(nodes[j as int].deps@),
                            nodes[j as int].name@ == rh,
                            rh == views(required@)[head as int],
                            self.nodes_wf(),
                            nodes == self.nodes@,
                            seeds == views(initial_nodes@),
                            views(required@).no_duplicates(),
                            forall|x: Seq<char>| #[trigger] seeds.contains(x) ==> views(required@).contains(x),
                            forall|q: int| 0 <= q < required@.len() ==> seeds.contains(#[trigger] views(required@)[q])
                                || names_of(nodes).contains(views(required@)[q]),
                            forall|q: int| 0 <= q <= head ==> names_of(nodes).contains(#[trigger] views(required@)[q]),
                            forall|m: int, jj: int, d: Seq<char>|
                                0 <= m < head && 0 <= jj < nodes.len() && nodes[jj].name@ == views(required@)[m]
                                    && #[trigger] views(nodes[jj].deps@).contains(d) && #[trigger] views(required@)[m] == views(required@)[m]
                                    ==> views(required@).contains(d),
                            forall|q: int|
                                0 <= q < required@.len() ==> seeds.contains(#[trigger] views(required@)[q]) || exists|m: int, jj: int|
                                    0 <= m < q && 0 <= jj < nodes.len() && #[trigger] names_and_requires(nodes[jj], views(required@)[m], views(required@)[q]),
                            forall|q: int| 0 <= q < k ==> views(required@).contains(#[trigger] dj[q]),
                        decreases nd - k,
                    {
                        let dep = &self.nodes[j].deps[k];
                        proof {
                            assert(dj[k as int] == dep@);
                            assert(dj.contains(dep@));
                        }
                        if self.find_node(dep).is_none() {
                            let err = TopCatError::MissingDependency(required[head].clone(), dep.clone());
                            proof {
                                self.lemma_reaches(seeds, views(required@), head as int);
                                self.lemma_index_named(j as int);
                                assert(names_of(nodes)[j as int] == rh);
                                assert(nodes[j as int].name@ == nodes[j as int].name@);
                                assert(self.explains(err));
                                if self.no_problems() {
                                    assert(self.node_ok(j as int));
                                }
                            }
                            return Err(err);
                        }
                        let ghost before = views(required@);
                        if !contains_name(&required, dep) {
                            required.push(dep.clone());
                            proof {
                                assert(views(required@) =~= before.push(dep@));
                                lemma_push_contains(before, dep@);
                                assert forall|q: int| 0 <= q <= head implies names_of(nodes).contains(#[trigger] views(required@)[q]) by {
                                    assert(views(required@)[q] == before[q]);
                                }
                                assert forall|q: int|
                                    0 <= q < required@.len() implies seeds.contains(#[trigger] views(required@)[q]) || exists|m: int, jj: int|
                                        0 <= m < q && 0 <= jj < nodes.len() && #[trigger] names_and_requires(nodes[jj], views(required@)[m], views(required@)[q]) by {
                                    if q < before.len() {
                                        assert(views(required@)[q] == before[q]);
                                        if !seeds.contains(before[q]) {
                                            let (m, jj) = choose|m: int, jj: int|
                                                0 <= m < q && 0 <= jj < nodes.len() && #[trigger] names_and_requires(nodes[jj], before[m], before[q]);
                                            assert(views(required@)[m] == before[m]);
                                            assert(names_and_requires(nodes[jj], views(required@)[m], views(required@)[q]));
                                        }
                                    } else {
                                        assert(names_and_requires(nodes[j as int], views(required@)[head as int], views(required@)[q]));
                                    }
                                }
                                assert forall|q: int| 0 <= q < required@.len() implies seeds.contains(#[trigger] views(required@)[q])
                                    || names_of(nodes).contains(views(required@)[q]) by {
                                    if q < before.len() {
                                        assert(views(required@)[q] == before[q]);
                                    }
                                }
                                assert forall|m: int, jj: int, d: Seq<char>|
                                    0 <= m < head && 0 <= jj < nodes.len() && nodes[jj].name@ == views(required@)[m]
                                        && #[trigger] views(nodes[jj].deps@).contains(d) && #[trigger] views(required@)[m] == views(required@)[m]
                                        implies views(required@).contains(d) by {
                                    assert(views(required@)[m] == before[m]);
                                    assert(before[m] == before[m]);
                                    assert(before.contains(d));
                                }
                            }
                        }
                        k = k + 1;
                    }
                    proof {
                        assert forall|jj: int, d: Seq<char>|
                            0 <= jj < nodes.len() && nodes[jj].name@ == views(required@)[head as int]
                                && #[trigger] views(nodes[jj].deps@).contains(d) implies views(required@).contains(d) by {
                            assert(jj == j) by {
                                if jj != j {
                                    assert(nodes[jj].name@ != nodes[j as int].name@);
                                }
                            }
                            let q = choose|q: int| 0 <= q < dj.len() && dj[q] == d;
                        }
                    }
                },
            }
            head = head + 1;
        }
        Ok(required)
    }

    /// Whether a node named `name` is emitted: it is in `req` when the
    /// closure applies, begins with one of the wanted prefixes when those are given,
    /// and with no exclude prefix.
    pub open spec fn passes(&self, name: Seq<char>, req: Option<Seq<Seq<char>>>) -> bool {
        &&& match req {
            Some(r) => r.contains(name),
            None => true,
        }
        &&& match self.include_prefixes() {
            Some(ps) => has_prefix_in(name, ps),
            None => true,
        }
        &&& match self.exclude_prefixes() {
            Some(ps) => !has_prefix_in(name, ps),
            None => true,
        }
    }

    /// The names of layer `l`'s nodes, by their index in its graph.
    pub open spec fn layer_keys(&self, l: int) -> Seq<Seq<char>> {
        let g = self.graphs()[l];
        Seq::new(graph_nodes(g).len(), |k: int| self.nodes_view()[graph_nodes(g)[k] as int].name@)
    }

    /// `o` is the order in which the sort emits layer `l`'s nodes: each
    /// once, each after what it requires, and among those ready the greatest
    /// name first.
    pub open spec fn is_layer_order(&self, l: int, o: Seq<usize>) -> bool {
        let g = self.graphs()[l];
        let n = graph_nodes(g).len();
        &&& o.no_duplicates()
        &&& forall|k: int| 0 <= k < o.len() ==> #[trigger] o[k] < n
        &&& forall|v: int| 0 <= v < n ==> #[trigger] o.contains(v as usize)
        &&& respects_edges(graph_edges(g), o)
        &&& greedy_order(self.layer_keys(l), graph_edges(g), n, o)
    }

    /// The paths of the nodes of `o`, layer `l`'s graph indices, that pass.
    pub open spec fn kept_paths(&self, l: int, o: Seq<usize>, req: Option<Seq<Seq<char>>>) -> Seq<Seq<char>>
        decreases o.len(),
    {
        if o.len() == 0 {
            Seq::empty()
        } else {
            let w = graph_nodes(self.graphs()[l])[o.last() as int] as int;
            self.kept_paths(l, o.drop_last(), req) + if self.passes(self.nodes_view()[w].name@, req) {
                seq![self.nodes_view()[w].path@]
            } else {
                Seq::empty()
            }
        }
    }

    /// The kept paths of the first `l` layers, in layer order.
    pub open spec fn all_paths(&self, orders: Seq<Seq<usize>>, req: Option<Seq<Seq<char>>>, l: int) -> Seq<Seq<char>>
        decreases l,
    {
        if l <= 0 {
            Seq::empty()
        } else {
            self.all_paths(orders, req, l - 1) + self.kept_paths(l - 1, orders[l - 1], req)
        }
    }

    /// `all_paths` reads only the first `l` orders.
    proof fn lemma_all_paths_prefix(&self, o1: Seq<Seq<usize>>, o2: Seq<Seq<usize>>, req: Option<Seq<Seq<char>>>, l: int)
        requires
            0 <= l <= o1.len(),
            l <= o2.len(),
            forall|m: int| 0 <= m < l ==> o1[m] == o2[m],
        ensures
            self.all_paths(o1, req, l) == self.all_paths(o2, req, l),
        decreases l,
    {
        if l > 0 {
            self.lemma_all_paths_prefix(o1, o2, req, l - 1);
        }
    }

    /// The result of reading out a graph that `selected` scopes: the names
    /// selected by a subdirectory filter, if one is set.
    pub open spec fn sorted_files_result(&self, selected: Option<Vec<String>>, r: Result<Vec<String>, TopCatError>) -> bool {
        &&& !self.is_built() ==> is_graph_missing(r)
        &&& self.is_built() && selects_nothing(selected) ==> is_empty_ok(r)
        &&& self.is_built() ==> (r is Ok <==> match selected {
            Some(sd) => forall|x: Seq<char>| #[trigger] views(sd@).contains(x) ==> names_of(self.nodes_view()).contains(x),
            None => true,
        })
        &&& match r {
            Ok(v) => !selects_nothing(selected) ==> exists|orders: Seq<Seq<usize>>, req: Option<Seq<Seq<char>>>|
                #[trigger] self.reads_as(selected, orders, req, v@),
            Err(_) => true,
        }
    }

    /// `paths` is what the layer orders `orders`, filtered by the closure
    /// `req` of `selected` and by the prefixes, give.
    pub open spec fn reads_as(&self, selected: Option<Vec<String>>, orders: Seq<Seq<usize>>, req: Option<Seq<Seq<char>>>, paths: Seq<String>) -> bool {
        &&& orders.len() == self.layers_view().len()
        &&& forall|l: int| 0 <= l < orders.len() ==> #[trigger] self.is_layer_order(l, orders[l])
        &&& match selected {
            None => req is None,
            Some(sd) => req matches Some(rq) && self.is_closure(views(sd@), rq),
        }
        &&& views(paths) == self.all_paths(orders, req, orders.len() as int)
    }

    /// Whether a node named `name` is emitted.
    fn node_passes(&self, name: &String, required: &Option<Vec<String>>) -> (r: bool)
        ensures
            r == self.passes(name@, option_views(*required)),
    {
        let in_closure = match required {
            Some(req) => contains_name(req, name),
            None => true,
        };
        let included = match &self.include_node_prefixes {
            Some(ps) => any_prefix(ps, name.as_str()),
            None => true,
        };
        let excluded = match &self.exclude_node_prefixes {
            Some(ps) => any_prefix(ps, name.as_str()),
            None => false,
        };
        in_closure && included && !excluded
    }

    /// The paths of the files in the order in which they are emitted: layer
    /// by layer, each layer sorted, filtered by the prefixes and, where
    /// `selected` holds the names that a subdirectory filter selects, by
    /// their closure.
    pub fn get_sorted_files(&self, selected: &Option<Vec<String>>) -> (r: Result<Vec<String>, TopCatError>)
        requires
            self.wf(),
        ensures
            self.sorted_files_result(*selected, r),
    {
        if !self.graph_is_built {
            return Err(TopCatError::GraphMissing);
        }
        let required: Option<Vec<String>> = match selected {
            Some(sd) => {
                if sd.len() == 0 {
                    return Ok(Vec::new());
                }
                proof {
                    assert forall|i: int, d: Seq<char>|
                        0 <= i < self.nodes_view().len() && #[trigger] views(self.nodes_view()[i].deps@).contains(d)
                            implies names_of(self.nodes_view()).contains(d) by {
                        assert(self.node_ok(i));
                    }
                }
                match self.find_required_nodes(sd) {
                    Ok(req) => Some(req),
                    Err(e) => {
                        return Err(e);
                    },
                }
            },
            None => None,
        };
        let ghost reqv = option_views(required);
        proof {
            assert(match *selected {
                None => reqv is None,
                Some(sd) => reqv matches Some(rq) && self.is_closure(views(sd@), rq),
            });
        }
        let mut out: Vec<String> = Vec::new();
        let ghost mut orders: Seq<Seq<usize>> = Seq::empty();
        let nl = self.layer_graphs.len();
        let mut l: usize = 0;
        while l < nl
            invariant
                l <= nl,
                nl == self.graphs().len(),
                self.wf(),
                self.is_built(),
                reqv == option_views(required),
                !selects_nothing(*selected),
                match *selected {
                    None => reqv is None,
                    Some(sd) => reqv matches Some(rq) && self.is_closure(views(sd@), rq),
                },
                orders.len() == l,
                forall|m: int| 0 <= m < l ==> #[trigger] self.is_layer_order(m, orders[m]),
                views(out@) == self.all_paths(orders, reqv, l as int),
            decreases nl - l,
        {
            let g = &self.layer_graphs[l];
            let n = node_count(g);
            let mut keys: Vec<String> = Vec::new();
            let mut k: usize = 0;
            while k < n
                invariant
                    k <= n,
                    n == graph_nodes(*g).len(),
                    l < nl,
                    nl == self.graphs().len(),
                    *g == self.graphs()[l as int],
                    self.wf(),
                    self.is_built(),
                    keys@.len() == k,
                    forall|q: int| 0 <= q < k ==> (#[trigger] keys@[q])@ == self.layer_keys(l as int)[q],
                decreases n - k,
            {
                let w = node_weight(g, k);
                keys.push(self.nodes[w].name.clone());
                k = k + 1;
            }
            proof {
                assert(key_seqs(keys@) =~= self.layer_keys(l as int));
                assert(is_acyclic(graph_edges(*g)));
            }
            let order = stable_order(g, &keys);
            let ghost base = views(out@);
            let mut q: usize = 0;
            while q < order.len()
                invariant
                    q <= order@.len(),
                    l < nl,
                    nl == self.graphs().len(),
                    *g == self.graphs()[l as int],
                    self.wf(),
                    self.is_built(),
                    reqv == option_views(required),
                    forall|k: int| 0 <= k < order@.len() ==> #[trigger] order@[k] < graph_nodes(*g).len(),
                    views(out@) == base + self.kept_paths(l as int, order@.subrange(0, q as int), reqv),
                decreases order@.len() - q,
            {
                let w = node_weight(g, order[q]);
                let ghost before = views(out@);
                if self.node_passes(&self.nodes[w].name, &required) {
                    out.push(self.nodes[w].path.clone());
                    proof {
                        assert(views(out@) =~= before.push(self.nodes@[w as int].path@));
                    }
                }
                proof {
                    let sub = order@.subrange(0, q + 1);
                    assert(sub.drop_last() =~= order@.subrange(0, q as int));
                    assert(sub.last() == order@[q as int]);
                    assert(views(out@) =~= base + self.kept_paths(l as int, sub, reqv));
                }
                q = q + 1;
            }
            proof {
                assert(order@.subrange(0, order@.len() as int) =~= order@);
                let next = orders.push(order@);
                self.lemma_all_paths_prefix(orders, next, reqv, l as int);
                assert(views(out@) =~= self.all_paths(next, reqv, l + 1));
                assert(self.is_layer_order(l as int, order@));
                orders = next;
            }
            l = l + 1;
        }
        let r: Result<Vec<String>, TopCatError> = Ok(out);
        proof {
            assert(self.reads_as(*selected, orders, reqv, out@));
            assert(r->Ok_0 == out);
            assert(match r {
                Ok(v) => !selects_nothing(*selected) ==> exists|o: Seq<Seq<usize>>, q: Option<Seq<Seq<char>>>|
                    #[trigger] self.reads_as(*selected, o, q, v@),
                Err(_) => true,
            });
        }
        r
    }

    /// What `graph_as_dot` gives for `layer_name`.
    pub open spec fn dot_result(&self, layer_name: Seq<char>, r: Result<String, TopCatError>) -> bool {
        if !self.is_built() {
            r matches Err(TopCatError::GraphMissing)
        } else {
            match first_index(self.layers_view(), layer_name) {
                None => r matches Err(TopCatError::UnknownError(_)),
                Some(l) => r matches Ok(t) && t@ == dot_of(
                    graph_nodes(self.graphs()[l]),
                    graph_edges(self.graphs()[l]),
                    label_attrs(self.nodes_view()),
                ),
            }
        }
    }

    /// Layer `layer_name`'s graph in Graphviz's language, each node labelled
    /// by its name.
    pub fn graph_as_dot(&self, layer_name: &str) -> (r: Result<String, TopCatError>)
        requires
            self.wf(),
        ensures
            self.dot_result(layer_name@, r),
    {
        if !self.graph_is_built {
            return Err(TopCatError::GraphMissing);
        }
        let name = String::from_str(layer_name);
        match layer_index(&self.layers, &name) {
            None => {
                let mut msg = String::from_str("Layer '");
                msg.append(layer_name);
                msg.append("' not found");
                Err(TopCatError::UnknownError(msg))
            },
            Some(l) => {
                let mut attrs: Vec<String> = Vec::new();
                let mut i: usize = 0;
                while i < self.nodes.len()
                    invariant
                        i <= self.nodes@.len(),
                        attrs@.len() == i,
                        forall|k: int| 0 <= k < i ==> (#[trigger] attrs@[k])@ == label_attr(self.nodes@[k].name@),
                    decreases self.nodes@.len() - i,
                {
                    let mut a = String::from_str("label=\"");
                    a.append(self.nodes[i].name.as_str());
                    a.append("\"");
                    attrs.push(a);
                    i = i + 1;
                }
                proof {
                    assert(attrs@.map_values(|a: String| a@) =~= label_attrs(self.nodes@));
                }
                let g = &self.layer_graphs[l];
                Ok(dot_text(g, &attrs))
            },
        }
    }

    /// The comment prefix that headers begin with.
    pub fn comment_str(&self) -> (r: &String)
        ensures
            r@ == self.comment_view(),
    {
        &self.comment_str
    }

    /// The prefixes of which a node's name must have one to be emitted, if
    /// set.
    pub fn include_node_prefixes(&self) -> (r: &Option<Vec<String>>)
        ensures
            option_views(*r) == self.include_prefixes(),
    {
        &self.include_node_prefixes
    }

    /// The prefixes of which a node's name must have none to be emitted, if
    /// set.
    pub fn exclude_node_prefixes(&self) -> (r: &Option<Vec<String>>)
        ensures
            option_views(*r) == self.exclude_prefixes(),
    {
        &self.exclude_node_prefixes
    }

    /// The registered nodes.
    pub fn nodes(&self) -> (r: &Vec<FileNode>)
        ensures
            r@ == self.nodes_view(),
    {
        &self.nodes
    }

    /// Whatever a closure of `seeds` holds at `k`, another closure holds.
    proof fn lemma_closure_within(&self, seeds: Seq<Seq<char>>, r1: Seq<Seq<char>>, r2: Seq<Seq<char>>, k: int)
        requires
            self.is_closure(seeds, r1),
            self.is_closure(seeds, r2),
            0 <= k < r1.len(),
        ensures
            r2.contains(r1[k]),
        decreases k,
    {
        if !seeds.contains(r1[k]) {
            let nodes = self.nodes_view();
            let (m, j) = choose|m: int, j: int|
                0 <= m < k && 0 <= j < nodes.len() && #[trigger] names_and_requires(nodes[j], r1[m], r1[k]);
            self.lemma_closure_within(seeds, r1, r2, m);
            let m2 = choose|m2: int| 0 <= m2 < r2.len() && r2[m2] == r1[m];
            assert(views(nodes[j].deps@).contains(r1[k]));
            assert(r2[m2] == r2[m2]);
        }
    }

    /// Two closures of the same seeds hold the same names.
    pub proof fn lemma_closure_unique(&self, seeds: Seq<Seq<char>>, r1: Seq<Seq<char>>, r2: Seq<Seq<char>>)
        requires
            self.is_closure(seeds, r1),
            self.is_closure(seeds, r2),
        ensures
            forall|x: Seq<char>| r1.contains(x) <==> r2.contains(x),
    {
        assert forall|x: Seq<char>| r1.contains(x) <==> r2.contains(x) by {
            if r1.contains(x) {
                let k = choose|k: int| 0 <= k < r1.len() && r1[k] == x;
                self.lemma_closure_within(seeds, r1, r2, k);
            }
            if r2.contains(x) {
                let k = choose|k: int| 0 <= k < r2.len() && r2[k] == x;
                self.lemma_closure_within(seeds, r2, r1, k);
            }
        }
    }

    /// Filters that agree on every name keep the same paths.
    proof fn lemma_kept_paths_same(&self, l: int, o: Seq<usize>, q1: Option<Seq<Seq<char>>>, q2: Option<Seq<Seq<char>>>)
        requires
            forall|x: Seq<char>| self.passes(x, q1) == self.passes(x, q2),
        ensures
            self.kept_paths(l, o, q1) == self.kept_paths(l, o, q2),
        decreases o.len(),
    {
        if o.len() > 0 {
            self.lemma_kept_paths_same(l, o.drop_last(), q1, q2);
        }
    }

    /// The same orders and filters give the same paths.
    proof fn lemma_all_paths_same(
        &self,
        o1: Seq<Seq<usize>>,
        o2: Seq<Seq<usize>>,
        q1: Option<Seq<Seq<char>>>,
        q2: Option<Seq<Seq<char>>>,
        l: int,
    )
        requires
            0 <= l <= o1.len(),
            l <= o2.len(),
            forall|m: int| 0 <= m < l ==> o1[m] == o2[m],
            forall|x: Seq<char>| self.passes(x, q1) == self.passes(x, q2),
        ensures
            self.all_paths(o1, q1, l) == self.all_paths(o2, q2, l),
        decreases l,
    {
        if l > 0 {
            self.lemma_all_paths_same(o1, o2, q1, q2, l - 1);
            self.lemma_kept_paths_same(l - 1, o1[l - 1], q1, q2);
        }
    }

    /// A built graph's layer has one sort order at most.
    pub proof fn lemma_layer_order_unique(&self, l: int, o1: Seq<usize>, o2: Seq<usize>)
        requires
            self.wf(),
            self.is_built(),
            0 <= l < self.graphs().len(),
            self.is_layer_order(l, o1),
            self.is_layer_order(l, o2),
        ensures
            o1 == o2,
    {
        let g = self.graphs()[l];
        let n = graph_nodes(g).len();
        let keys = self.layer_keys(l);
        assert(keys_distinct(keys)) by {
            assert forall|a: int, b: int| 0 <= a < keys.len() && 0 <= b < keys.len() && a != b implies keys[a] != keys[b] by {
                let wa = graph_nodes(g)[a];
                let wb = graph_nodes(g)[b];
                assert(self.node_slots()[wa as int] == a);
                assert(self.node_slots()[wb as int] == b);
                assert(wa != wb);
                assert(self.nodes_view()[wa as int].name@ != self.nodes_view()[wb as int].name@);
            }
        }
        assert(emits_all(n, o1));
        assert(emits_all(n, o2));
        lemma_greedy_order_unique(keys, graph_edges(g), n, o1, o2);
    }

    /// Reading the same graph out twice, with the same selection, gives the
    /// same outcome: both fail or both succeed, with the same paths.
    pub proof fn lemma_sorted_files_idempotent(
        &self,
        selected: Option<Vec<String>>,
        r1: Result<Vec<String>, TopCatError>,
        r2: Result<Vec<String>, TopCatError>,
    )
        requires
            self.wf(),
            self.sorted_files_result(selected, r1),
            self.sorted_files_result(selected, r2),
        ensures
            r1 is Ok <==> r2 is Ok,
            r1 is Ok ==> views(r1->Ok_0@) == views(r2->Ok_0@),
            !self.is_built() ==> is_graph_missing(r1) && is_graph_missing(r2),
    {
        if r1 is Ok && r2 is Ok {
            let v1 = r1->Ok_0;
            let v2 = r2->Ok_0;
            if selects_nothing(selected) {
                assert(views(v1@) =~= views(v2@));
            } else {
                let (o1, q1) = choose|o: Seq<Seq<usize>>, q: Option<Seq<Seq<char>>>| #[trigger] self.reads_as(selected, o, q, v1@);
                let (o2, q2) = choose|o: Seq<Seq<usize>>, q: Option<Seq<Seq<char>>>| #[trigger] self.reads_as(selected, o, q, v2@);
                assert forall|m: int| 0 <= m < o1.len() implies o1[m] == o2[m] by {
                    assert(self.is_layer_order(m, o1[m]));
                    assert(self.is_layer_order(m, o2[m]));
                    self.lemma_layer_order_unique(m, o1[m], o2[m]);
                }
                match selected {
                    Some(sd) => {
                        self.lemma_closure_unique(views(sd@), q1->Some_0, q2->Some_0);
                    },
                    None => {},
                }
                assert forall|x: Seq<char>| self.passes(x, q1) == self.passes(x, q2) by {}
                self.lemma_all_paths_same(o1, o2, q1, q2, o1.len() as int);
            }
        }
    }

    /// In a built graph no node requires a node of a later layer: the layer
    /// of what a node requires stands no later in the configured order than
    /// its own.
    pub proof fn lemma_no_forward_layer_dependency(&self, i: int, j: int)
        requires
            self.wf(),
            self.is_built(),
            0 <= i < self.nodes_view().len(),
            0 <= j < self.nodes_view().len(),
            views(self.nodes_view()[i].deps@).contains(self.nodes_view()[j].name@),
        ensures
            first_index(self.layers_view(), self.nodes_view()[i].layer@) == Some(self.node_layers()[i] as int),
            first_index(self.layers_view(), self.nodes_view()[j].layer@) == Some(self.node_layers()[j] as int),
            self.node_layers()[i] >= self.node_layers()[j],
    {
        assert(self.node_ok(i));
    }
}

} // verus!
