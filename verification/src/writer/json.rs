//! The JSON report of a call graph, built as plain values: node records in
//! a stable order with short ids, the edges between them, counts by kind,
//! and paths shown relative to the analysis root or working directory.

use vstd::prelude::*;
use vstd::string::{StrSliceExecFns, StringExecFns};
use crate::text::{chars_eq, chars_le, chars_of, lex_le, lemma_lex_le_antisymmetric, lemma_lex_le_reflexive, lemma_lex_le_total, lemma_lex_le_transitive};
use crate::node::NodeId;
use std::collections::{HashMap, HashSet};
use vstd::relations::{sorted_by, total_ordering};
use crate::node::{full_name, Flavor, Node};
use crate::scope::opt_string_view;
use crate::sorting::{lemma_insert_elements, lemma_sorted_insert, lemma_sorted_set_unique};
use vstd::hash_set::StringHashSet;
use crate::text::{append_decimal, decimal, lemma_decimal_injective, triple_le, triple_order, lemma_triple_total_ordering};

verus! {

// ---------------------------------------------------------------------------
// Paths
// ---------------------------------------------------------------------------

/// Whether `std::path::Path::is_absolute` holds of the path `p`.
pub uninterp spec fn path_is_absolute(p: Seq<char>) -> bool;

/// The path that `std::path::Path::join` makes of `base` and `p`.
pub uninterp spec fn path_joined(base: Seq<char>, p: Seq<char>) -> Seq<char>;

/// What `std::path::Path::strip_prefix` leaves of `p` after the leading
/// components `prefix`, if `prefix` is a prefix of `p`.
pub uninterp spec fn path_stripped(p: Seq<char>, prefix: Seq<char>) -> Option<Seq<char>>;

/// Calls `std::path::Path::is_absolute` on `p`. Claimed: the result is
/// `path_is_absolute(p)`, a function of `p` alone.
#[verifier::external_body]
fn is_absolute(p: &str) -> (r: bool)
    ensures
        r == path_is_absolute(p@),
{
    std::path::Path::new(p).is_absolute()
}

/// Calls `std::path::Path::join` on `base` and `p` and gives the joined
/// path as a string. Claimed: the result is `path_joined(base, p)`, a
/// function of its arguments alone.
#[verifier::external_body]
fn join_path(base: &str, p: &str) -> (r: String)
    ensures
        r@ == path_joined(base@, p@),
{
    std::path::Path::new(base).join(p).to_string_lossy().into_owned()
}

/// Calls `std::path::Path::strip_prefix` on `p` and `prefix` and gives
/// what is left as a string, or `None` where `prefix` is not a prefix of
/// `p`. Claimed: the result is `path_stripped(p, prefix)`, a function of
/// its arguments alone.
#[verifier::external_body]
fn strip_prefix(p: &str, prefix: &str) -> (r: Option<String>)
    ensures
        match r {
            Some(s) => path_stripped(p@, prefix@) == Some(s@),
            None => path_stripped(p@, prefix@) is None,
        },
{
    match std::path::Path::new(p).strip_prefix(prefix) {
        Ok(rest) => Some(rest.to_string_lossy().into_owned()),
        Err(_) => None,
    }
}

/// The path `path`, resolved against `base` where it is relative.
pub open spec fn resolved_path(base: Seq<char>, path: Seq<char>) -> Seq<char> {
    if path_is_absolute(path) {
        path
    } else {
        path_joined(base, path)
    }
}

/// A path with its backslashes turned into forward slashes.
pub open spec fn slashed(p: Seq<char>) -> Seq<char> {
    p.map_values(|c: char| if c == '\\' { '/' } else { c })
}

/// Formats the paths of the report: relative to the analysis root where
/// there is one, else relative to the working directory where every input
/// was given as a relative path, else absolute.
pub struct PathFormatter {
    pub root: Option<String>,
    pub cwd: String,
    pub path_kind: &'static str,
}

/// The path kind of a report: `root_relative` with an analysis root,
/// `input_relative` where every input is relative, else `absolute`.
pub open spec fn path_kind_of(root: Option<Seq<char>>, inputs: Seq<Seq<char>>) -> Seq<char> {
    if root is Some {
        "root_relative"@
    } else if forall|i: int| 0 <= i < inputs.len() ==> !path_is_absolute(#[trigger] inputs[i]) {
        "input_relative"@
    } else {
        "absolute"@
    }
}

/// The path shown for `path`: relative to the working directory (`.` for
/// the directory itself) where it lies inside it, else the path itself.
pub open spec fn displayed_path(cwd: Seq<char>, path: Seq<char>) -> Seq<char> {
    match path_stripped(path, cwd) {
        Some(rel) => if rel.len() == 0 {
            seq!['.']
        } else {
            slashed(rel)
        },
        None => slashed(path),
    }
}

/// The path shown in the graph for an already resolved `path`: relative
/// to the root where it lies inside it; otherwise displayed relative to
/// the working directory for an input-relative report, else in full.
pub open spec fn graph_path(root: Option<Seq<char>>, cwd: Seq<char>, path_kind: Seq<char>, path: Seq<char>) -> Seq<char> {
    let in_root = match root {
        Some(r) => path_stripped(path, r),
        None => None,
    };
    match in_root {
        Some(rel) => slashed(rel),
        None => if path_kind == "input_relative"@ {
            displayed_path(cwd, path)
        } else {
            slashed(path)
        },
    }
}

/// The resolved analysis root of a report, if it has one.
pub open spec fn resolved_root(cwd: Seq<char>, root: Option<Seq<char>>) -> Option<Seq<char>> {
    match root {
        Some(y) => Some(resolved_path(cwd, y)),
        None => None,
    }
}

/// `s` with every backslash replaced by a forward slash.
fn path_to_string(s: &str) -> (r: String)
    ensures
        r@ == slashed(s@),
{
    let cs = chars_of(s);
    let mut out = String::new();
    let mut i: usize = 0;
    proof {
        reveal_strlit("/");
    }
    while i < cs.len()
        invariant
            i <= cs@.len(),
            cs@ == s@,
            "/"@ == seq!['/'],
            out@ == slashed(s@.take(i as int)),
        decreases cs@.len() - i,
    {
        if cs[i] == '\\' {
            out.append("/");
        } else {
            out.append(s.substring_char(i, i + 1));
        }
        assert(slashed(s@.take(i + 1)) =~= slashed(s@.take(i as int)).push(slashed(s@)[i as int]));
        assert(out@ =~= slashed(s@.take(i + 1)));
        i = i + 1;
    }
    assert(s@.take(i as int) =~= s@);
    out
}

impl PathFormatter {
    /// The resolved analysis root, as characters.
    pub open spec fn root_view(&self) -> Option<Seq<char>> {
        match self.root {
            Some(r) => Some(r@),
            None => None,
        }
    }

    /// A formatter for a report with the analysis root `root` (if any) and
    /// the inputs `inputs`, with `cwd` as the working directory.
    pub fn new(root: Option<&str>, inputs: &[String], cwd: String) -> (r: Self)
        ensures
            r.cwd@ == cwd@,
            r.root_view() == resolved_root(
                cwd@,
                match root {
                    Some(y) => Some(y@),
                    None => None,
                },
            ),
            r.path_kind@ == path_kind_of(
                match root {
                    Some(y) => Some(y@),
                    None => None,
                },
                inputs@.map_values(|s: String| s@),
            ),
    {
        let resolved = match root {
            Some(value) => Some(Self::resolve_path(cwd.as_str(), value)),
            None => None,
        };
        let ghost views = inputs@.map_values(|s: String| s@);
        let mut all_relative = true;
        let mut i: usize = 0;
        while i < inputs.len()
            invariant
                i <= inputs@.len(),
                views == inputs@.map_values(|s: String| s@),
                all_relative == forall|j: int| 0 <= j < i ==> !path_is_absolute(#[trigger] views[j]),
            decreases inputs@.len() - i,
        {
            assert(views[i as int] == inputs@[i as int]@);
            if is_absolute(inputs[i].as_str()) {
                all_relative = false;
            }
            i = i + 1;
        }
        proof {
            reveal_strlit("root_relative");
            reveal_strlit("input_relative");
            reveal_strlit("absolute");
        }
        let path_kind = if resolved.is_some() {
            "root_relative"
        } else if all_relative {
            "input_relative"
        } else {
            "absolute"
        };
        PathFormatter { root: resolved, cwd, path_kind }
    }

    /// `path`, resolved against `base` where it is relative.
    pub fn resolve_path(base: &str, path: &str) -> (r: String)
        ensures
            r@ == resolved_path(base@, path@),
    {
        if is_absolute(path) {
            path.to_owned()
        } else {
            join_path(base, path)
        }
    }

    /// The analysis root as the report shows it.
    pub fn format_analysis_root(&self, root: &str) -> (r: String)
        ensures
            r@ == displayed_path(self.cwd@, resolved_path(self.cwd@, root@)),
    {
        let path = Self::resolve_path(self.cwd.as_str(), root);
        self.display_path(path.as_str())
    }

    /// An input path as the report shows it.
    pub fn format_input(&self, input: &str) -> (r: String)
        ensures
            r@ == graph_path(self.root_view(), self.cwd@, self.path_kind@, resolved_path(self.cwd@, input@)),
    {
        let path = Self::resolve_path(self.cwd.as_str(), input);
        self.format_graph_path(path.as_str())
    }

    /// The path of a node's location as the report shows it.
    pub fn format_location(&self, path: &str) -> (r: String)
        ensures
            r@ == graph_path(self.root_view(), self.cwd@, self.path_kind@, resolved_path(self.cwd@, path@)),
    {
        let resolved = Self::resolve_path(self.cwd.as_str(), path);
        self.format_graph_path(resolved.as_str())
    }

    /// A resolved path as the graph shows it.
    pub fn format_graph_path(&self, path: &str) -> (r: String)
        ensures
            r@ == graph_path(self.root_view(), self.cwd@, self.path_kind@, path@),
    {
        if let Some(root) = &self.root {
            if let Some(relative) = strip_prefix(path, root.as_str()) {
                return path_to_string(relative.as_str());
            }
        }
        proof {
            reveal_strlit("input_relative");
        }
        let input_relative = "input_relative";
        if str_eq(self.path_kind, input_relative) {
            self.display_path(path)
        } else {
            path_to_string(path)
        }
    }

    /// A path shown relative to the working directory where it lies inside
    /// it, else in full.
    pub fn display_path(&self, path: &str) -> (r: String)
        ensures
            r@ == displayed_path(self.cwd@, path@),
    {
        proof {
            reveal_strlit(".");
        }
        match strip_prefix(path, self.cwd.as_str()) {
            Some(relative) => {
                if relative.as_str().is_empty() {
                    ".".to_owned()
                } else {
                    path_to_string(relative.as_str())
                }
            },
            None => path_to_string(path),
        }
    }
}

/// Whether two strings are equal.
fn str_eq(a: &str, b: &str) -> (r: bool)
    ensures
        r == (a@ == b@),
{
    let ca = chars_of(a);
    let cb = chars_of(b);
    crate::text::chars_eq(&ca, &cb)
}

// ---------------------------------------------------------------------------
// Node records
// ---------------------------------------------------------------------------

/// Which graph the report describes.
pub enum JsonGraphMode {
    Symbol,
    Module,
}

/// How to write the report: which graph it describes, the analysis root
/// (if any) and the inputs that were analysed.
pub struct JsonOutputOptions<'a> {
    pub graph_mode: JsonGraphMode,
    pub analysis_root: Option<&'a str>,
    pub inputs: &'a [String],
}

/// The report's name for a graph mode.
pub open spec fn graph_mode_name(mode: JsonGraphMode) -> Seq<char> {
    match mode {
        JsonGraphMode::Symbol => "symbol"@,
        JsonGraphMode::Module => "module"@,
    }
}

/// The report's name for a graph mode.
pub fn graph_mode_label(mode: &JsonGraphMode) -> (r: &'static str)
    ensures
        r@ == graph_mode_name(*mode),
{
    match mode {
        JsonGraphMode::Symbol => "symbol",
        JsonGraphMode::Module => "module",
    }
}

/// The public kind of a node of a given flavor, for the kinds the report
/// names.
pub open spec fn public_kind_name(f: Flavor) -> Option<Seq<char>> {
    match f {
        Flavor::Module => Some("module"@),
        Flavor::Class => Some("class"@),
        Flavor::Function => Some("function"@),
        Flavor::Method => Some("method"@),
        Flavor::StaticMethod => Some("static_method"@),
        Flavor::ClassMethod => Some("class_method"@),
        _ => None,
    }
}

/// The kind a report entry shows for a flavor: its public kind, or
/// `unknown`.
pub open spec fn kind_name(f: Flavor) -> Seq<char> {
    match public_kind_name(f) {
        Some(k) => k,
        None => "unknown"@,
    }
}

/// The public kind of a node, for the kinds the report names.
pub fn public_kind(node: &Node) -> (r: Option<String>)
    ensures
        match r {
            Some(k) => public_kind_name(node.flavor) == Some(k@),
            None => public_kind_name(node.flavor) is None,
        },
{
    match node.flavor {
        Flavor::Module => Some("module".to_owned()),
        Flavor::Class => Some("class".to_owned()),
        Flavor::Function => Some("function".to_owned()),
        Flavor::Method => Some("method".to_owned()),
        Flavor::StaticMethod => Some("static_method".to_owned()),
        Flavor::ClassMethod => Some("class_method".to_owned()),
        _ => None,
    }
}

/// The position of the last `.` in `s`, if there is one.
pub open spec fn last_dot(s: Seq<char>) -> Option<int>
    decreases s.len(),
{
    if s.len() == 0 {
        None
    } else if s.last() == '.' {
        Some(s.len() - 1)
    } else {
        last_dot(s.drop_last())
    }
}

/// A node's short name and namespace for the report: its own, where it
/// has a non-empty namespace; else the canonical name split at its last
/// `.`; else the whole canonical name, with no namespace.
pub open spec fn name_and_namespace(namespace: Option<Seq<char>>, name: Seq<char>, canonical: Seq<char>) -> (
    Seq<char>,
    Option<Seq<char>>,
) {
    match namespace {
        Some(ns) if ns.len() > 0 => (name, Some(ns)),
        _ => match last_dot(canonical) {
            Some(i) => (canonical.subrange(i + 1, canonical.len() as int), Some(canonical.subrange(0, i))),
            None => (canonical, None),
        },
    }
}

proof fn lemma_last_dot_bounds(s: Seq<char>)
    ensures
        last_dot(s) matches Some(i) ==> 0 <= i < s.len() && s[i] == '.',
    decreases s.len(),
{
    if s.len() > 0 && s.last() != '.' {
        lemma_last_dot_bounds(s.drop_last());
    }
}

/// A node's short name and namespace for the report.
pub fn node_name_and_namespace(node: &Node, canonical_name: &str) -> (r: (String, Option<String>))
    ensures
        (r.0@, match r.1 {
            Some(ns) => Some(ns@),
            None => None,
        }) == name_and_namespace(node.namespace_view(), node.name@, canonical_name@),
{
    if let Some(namespace) = &node.namespace {
        if !namespace.as_str().is_empty() {
            return (node.name.clone(), Some(namespace.clone()));
        }
    }
    let cs = chars_of(canonical_name);
    let mut i = cs.len();
    assert(cs@.take(i as int) =~= cs@);
    while i > 0
        invariant
            i <= cs@.len(),
            cs@ == canonical_name@,
            node.namespace_view() matches Some(ns) ==> ns.len() == 0,
            last_dot(cs@) == last_dot(cs@.take(i as int)),
        decreases i,
    {
        assert(cs@.take(i as int).drop_last() =~= cs@.take(i - 1));
        if cs[i - 1] == '.' {
            proof {
                lemma_last_dot_bounds(cs@);
                assert(cs@.take(i as int).last() == '.');
                assert(last_dot(cs@) == Some(i - 1));
            }
            let namespace = canonical_name.substring_char(0, i - 1).to_owned();
            let name = canonical_name.substring_char(i, cs.len()).to_owned();
            return (name, Some(namespace));
        }
        i = i - 1;
    }
    (canonical_name.to_owned(), None)
}

// ---------------------------------------------------------------------------
// Node order
// ---------------------------------------------------------------------------

/// What the report orders nodes by: namespace, then name.
pub open spec fn node_key(n: Node) -> (Option<Seq<char>>, Seq<char>) {
    (n.namespace_view(), n.name@)
}

/// Order on optional strings: none first, then by code-point order.
pub open spec fn opt_lex_le(a: Option<Seq<char>>, b: Option<Seq<char>>) -> bool {
    match a {
        None => true,
        Some(x) => match b {
            None => false,
            Some(y) => lex_le(x, y),
        },
    }
}

/// Order on node keys: by namespace, then by name.
pub open spec fn node_key_le(a: (Option<Seq<char>>, Seq<char>), b: (Option<Seq<char>>, Seq<char>)) -> bool {
    if a.0 != b.0 {
        opt_lex_le(a.0, b.0)
    } else {
        lex_le(a.1, b.1)
    }
}

/// The node-key order, as a relation.
pub open spec fn node_key_order() -> spec_fn((Option<Seq<char>>, Seq<char>), (Option<Seq<char>>, Seq<char>)) -> bool {
    |a: (Option<Seq<char>>, Seq<char>), b: (Option<Seq<char>>, Seq<char>)| node_key_le(a, b)
}

/// The node-key order is a total order.
pub proof fn lemma_node_key_total_ordering()
    ensures
        total_ordering(node_key_order()),
{
    assert forall|a: (Option<Seq<char>>, Seq<char>)| #[trigger] node_key_le(a, a) by {
        lemma_lex_le_reflexive(a.1);
    }
    assert forall|a: (Option<Seq<char>>, Seq<char>), b: (Option<Seq<char>>, Seq<char>)|
        node_key_le(a, b) && node_key_le(b, a) implies a == b by {
        if a.0 != b.0 {
            if a.0 is Some && b.0 is Some {
                lemma_lex_le_antisymmetric(a.0->0, b.0->0);
            }
        } else {
            lemma_lex_le_antisymmetric(a.1, b.1);
        }
    }
    assert forall|
        a: (Option<Seq<char>>, Seq<char>),
        b: (Option<Seq<char>>, Seq<char>),
        c: (Option<Seq<char>>, Seq<char>),
    | node_key_le(a, b) && node_key_le(b, c) implies node_key_le(a, c) by {
        if a.0 != b.0 && b.0 != c.0 {
            if a.0 is Some && b.0 is Some && c.0 is Some {
                lemma_lex_le_transitive(a.0->0, b.0->0, c.0->0);
                if a.0 == c.0 {
                    lemma_lex_le_antisymmetric(a.0->0, b.0->0);
                }
            }
        } else if a.0 == b.0 && b.0 == c.0 {
            lemma_lex_le_transitive(a.1, b.1, c.1);
        }
    }
    assert forall|a: (Option<Seq<char>>, Seq<char>), b: (Option<Seq<char>>, Seq<char>)|
        node_key_le(a, b) || node_key_le(b, a) by {
        if a.0 is Some && b.0 is Some {
            lemma_lex_le_total(a.0->0, b.0->0);
        }
        lemma_lex_le_total(a.1, b.1);
    }
}

/// The ids of the defined nodes, in some order, each once.
fn collect_ids(defined: &HashSet<NodeId>) -> (r: Vec<NodeId>)
    ensures
        r@.to_set() == defined@,
        r@.no_duplicates(),
{
    broadcast use {vstd::std_specs::hash::group_hash_axioms, vstd::seq_lib::group_seq_properties};

    let mut ids: Vec<NodeId> = Vec::new();
    for x in it: defined.iter()
        invariant
            ids@ == it.seq().take(it.index() as int).unref(),
            it.seq().unref().no_duplicates(),
            it.seq().unref().to_set() == defined@,
            it.index() == it.seq().len() ==> ids@ == it.seq().unref(),
    {
        proof {
            let idx = it.index() as int;
            assert(it.seq().take(idx + 1).unref() =~= it.seq().take(idx).unref().push(*x));
            assert(it.seq().take(it.seq().len() as int) =~= it.seq());
        }
        ids.push(*x);
    }
    proof {
        assert forall|a: int, b: int| 0 <= a < ids@.len() && 0 <= b < ids@.len() && a != b implies ids@[a]
            != ids@[b] by {
        }
    }
    ids
}

/// The key of every node, in arena order, as character vectors.
fn node_keys(arena: &[Node]) -> (r: Vec<(Option<Vec<char>>, Vec<char>)>)
    ensures
        r@.len() == arena@.len(),
        forall|i: int| 0 <= i < arena@.len() ==> key_chars_view(#[trigger] r@[i]) == node_key(arena@[i]),
{
    let mut r: Vec<(Option<Vec<char>>, Vec<char>)> = Vec::new();
    let mut i: usize = 0;
    while i < arena.len()
        invariant
            i <= arena@.len(),
            r@.len() == i,
            forall|j: int| 0 <= j < i ==> key_chars_view(#[trigger] r@[j]) == node_key(arena@[j]),
        decreases arena@.len() - i,
    {
        let n = &arena[i];
        let ns = match &n.namespace {
            Some(s) => Some(chars_of(s.as_str())),
            None => None,
        };
        r.push((ns, chars_of(n.name.as_str())));
        i = i + 1;
    }
    r
}

/// A node key held as character vectors, as characters.
pub open spec fn key_chars_view(k: (Option<Vec<char>>, Vec<char>)) -> (Option<Seq<char>>, Seq<char>) {
    (
        match k.0 {
            Some(v) => Some(v@),
            None => None,
        },
        k.1@,
    )
}

/// Whether key `a` comes no later than key `b`.
fn key_le(a: &(Option<Vec<char>>, Vec<char>), b: &(Option<Vec<char>>, Vec<char>)) -> (r: bool)
    ensures
        r == node_key_le(key_chars_view(*a), key_chars_view(*b)),
{
    let same_ns = match (&a.0, &b.0) {
        (None, None) => true,
        (Some(x), Some(y)) => chars_eq(x, y),
        _ => false,
    };
    if !same_ns {
        match (&a.0, &b.0) {
            (None, _) => true,
            (Some(_), None) => false,
            (Some(x), Some(y)) => chars_le(x, y),
        }
    } else {
        chars_le(&a.1, &b.1)
    }
}

/// The keys of the nodes with the given ids.
pub open spec fn keys_of(arena: Seq<Node>, ids: Seq<NodeId>) -> Seq<(Option<Seq<char>>, Seq<char>)> {
    ids.map_values(|id: NodeId| node_key(arena[id as int]))
}

/// The ids reordered by node key (namespace, then name); ids with equal
/// keys keep their relative order.
fn sort_node_ids(arena: &[Node], ids: &Vec<NodeId>) -> (r: Vec<NodeId>)
    requires
        forall|i: int| 0 <= i < ids@.len() ==> (#[trigger] ids@[i]) < arena@.len(),
        ids@.no_duplicates(),
    ensures
        r@.to_set() == ids@.to_set(),
        r@.no_duplicates(),
        sorted_by(keys_of(arena@, r@), node_key_order()),
{
    broadcast use vstd::seq_lib::group_seq_properties;

    let keys = node_keys(arena);
    proof {
        lemma_node_key_total_ordering();
    }
    let mut sorted: Vec<NodeId> = Vec::new();
    let mut i: usize = 0;
    while i < ids.len()
        invariant
            i <= ids@.len(),
            forall|j: int| 0 <= j < ids@.len() ==> (#[trigger] ids@[j]) < arena@.len(),
            ids@.no_duplicates(),
            keys@.len() == arena@.len(),
            forall|j: int| 0 <= j < arena@.len() ==> key_chars_view(#[trigger] keys@[j]) == node_key(arena@[j]),
            total_ordering(node_key_order()),
            sorted@.to_set() == ids@.take(i as int).to_set(),
            sorted@.no_duplicates(),
            forall|j: int| 0 <= j < sorted@.len() ==> (#[trigger] sorted@[j]) < arena@.len(),
            sorted_by(keys_of(arena@, sorted@), node_key_order()),
        decreases ids@.len() - i,
    {
        let x = ids[i];
        let ghost ks = keys_of(arena@, sorted@);
        let ghost kx = node_key(arena@[x as int]);
        let mut p: usize = 0;
        while p < sorted.len() && key_le(&keys[sorted[p]], &keys[x])
            invariant
                p <= sorted@.len(),
                x < arena@.len(),
                keys@.len() == arena@.len(),
                forall|j: int| 0 <= j < arena@.len() ==> key_chars_view(#[trigger] keys@[j]) == node_key(arena@[j]),
                forall|j: int| 0 <= j < sorted@.len() ==> (#[trigger] sorted@[j]) < arena@.len(),
                ks == keys_of(arena@, sorted@),
                kx == node_key(arena@[x as int]),
                forall|j: int| 0 <= j < p ==> node_key_le(#[trigger] ks[j], kx),
            decreases sorted@.len() - p,
        {
            p = p + 1;
        }
        let ghost before = sorted@;
        proof {
            assert(!before.contains(x)) by {
                if before.contains(x) {
                    assert(before.to_set().contains(x));
                    let j = choose|j: int| 0 <= j < i && ids@.take(i as int)[j] == x;
                    assert(ids@[j] == ids@[i as int]);
                }
            }
        }
        sorted.insert(p, x);
        proof {
            assert(sorted@ =~= before.insert(p as int, x));
            assert(keys_of(arena@, sorted@) =~= ks.insert(p as int, kx));
            if p < ks.len() {
                assert(node_key_order()(ks[p as int], kx) || node_key_order()(kx, ks[p as int]));
            }
            lemma_sorted_insert(ks, p as int, kx, node_key_order());
            lemma_insert_elements(before, p as int, x);
            assert(ids@.take(i + 1) =~= ids@.take(i as int).push(x));
            ids@.take(i as int).lemma_push_to_set_commute(x);
        }
        i = i + 1;
    }
    assert(ids@.take(i as int) =~= ids@);
    sorted
}

// ---------------------------------------------------------------------------
// Edges
// ---------------------------------------------------------------------------

/// The (source, target) pairs of an edge map.
pub open spec fn edge_pair_set(m: Map<NodeId, HashSet<NodeId>>) -> Set<(NodeId, NodeId)> {
    Set::new(|p: (NodeId, NodeId)| m.contains_key(p.0) && m[p.0]@.contains(p.1))
}

/// The pairs of an edge map whose source is one of `srcs`.
pub open spec fn pairs_from(m: Map<NodeId, HashSet<NodeId>>, srcs: Seq<NodeId>) -> Set<(NodeId, NodeId)> {
    Set::new(|p: (NodeId, NodeId)| srcs.contains(p.0) && m.contains_key(p.0) && m[p.0]@.contains(p.1))
}

/// The (source, target) pairs of an edge map, each once.
fn edge_pairs(m: &HashMap<NodeId, HashSet<NodeId>>) -> (r: Vec<(NodeId, NodeId)>)
    ensures
        r@.to_set() == edge_pair_set(m@),
        r@.no_duplicates(),
{
    broadcast use {vstd::std_specs::hash::group_hash_axioms, vstd::seq_lib::group_seq_properties};

    let mut r: Vec<(NodeId, NodeId)> = Vec::new();
    for k in it: m.keys()
        invariant
            it.seq().unref().no_duplicates(),
            it.seq().unref().to_set() == m@.dom(),
            r@.to_set() == pairs_from(m@, it.seq().take(it.index() as int).unref()),
            r@.no_duplicates(),
            it.index() == it.seq().len() ==> r@.to_set() == edge_pair_set(m@),
    {
        let ghost idx = it.index() as int;
        let ghost done = it.seq().take(idx).unref();
        let k = *k;
        assert(it.seq().unref()[idx] == k);
        assert(m@.dom().contains(k)) by {
            assert(it.seq().unref().to_set().contains(k));
        }
        assert(!done.contains(k)) by {
            if done.contains(k) {
                let j = choose|j: int| 0 <= j < done.len() && done[j] == k;
                assert(it.seq().unref()[j] == k);
            }
        }
        let ghost base = r@;
        assert forall|j: int| 0 <= j < base.len() implies (#[trigger] base[j]).0 != k by {
            assert(base.to_set().contains(base[j]));
        }
        match m.get(&k) {
            Some(ts) => {
                assert(*ts == m@[k]);
                for t in it2: ts.iter()
                    invariant
                        it2.seq().unref().no_duplicates(),
                        it2.seq().unref().to_set() == ts@,
                        r@.to_set() == base.to_set().union(
                            Set::new(|p: (NodeId, NodeId)| p.0 == k && it2.seq().take(it2.index() as int).unref().contains(p.1)),
                        ),
                        r@.len() >= base.len(),
                        r@.subrange(0, base.len() as int) == base,
                        forall|j: int| base.len() <= j < r@.len() ==> (#[trigger] r@[j]).0 == k,
                        r@.no_duplicates(),
                        base.no_duplicates(),
                        forall|j: int| 0 <= j < base.len() ==> (#[trigger] base[j]).0 != k,
                        it2.index() == it2.seq().len() ==> r@.to_set() == base.to_set().union(
                            Set::new(|p: (NodeId, NodeId)| p.0 == k && ts@.contains(p.1)),
                        ),
                {
                    let ghost j2 = it2.index() as int;
                    let t = *t;
                    assert(it2.seq().unref()[j2] == t);
                    let ghost prev = r@;
                    proof {
                        assert(!prev.contains((k, t))) by {
                            if prev.contains((k, t)) {
                                let j = choose|j: int| 0 <= j < prev.len() && prev[j] == (k, t);
                                if j < base.len() {
                                    assert(base[j] == prev[j]);
                                } else {
                                    assert(prev.to_set().contains((k, t)));
                                    assert(it2.seq().take(j2).unref().contains(t));
                                    let q = choose|q: int| 0 <= q < j2 && it2.seq().take(j2).unref()[q] == t;
                                    assert(it2.seq().unref()[q] == t);
                                }
                            }
                        }
                    }
                    r.push((k, t));
                    proof {
                        assert(it2.seq().take(j2 + 1).unref() =~= it2.seq().take(j2).unref().push(t));
                        assert(r@.subrange(0, base.len() as int) =~= base);
                        prev.lemma_push_to_set_commute((k, t));
                        assert(r@.to_set() == prev.to_set().insert((k, t)));
                        let sj = Set::new(|p: (NodeId, NodeId)| p.0 == k && it2.seq().take(j2).unref().contains(p.1));
                        let sj1 = Set::new(|p: (NodeId, NodeId)| p.0 == k && it2.seq().take(j2 + 1).unref().contains(p.1));
                        assert(prev.to_set() == base.to_set().union(sj));
                        assert(sj1 =~= sj.insert((k, t))) by {
                            assert forall|p: (NodeId, NodeId)| sj1.contains(p) implies sj.insert((k, t)).contains(p) by {
                                if p != (k, t) {
                                    let q = choose|q: int| 0 <= q < j2 + 1 && #[trigger] it2.seq().take(j2 + 1).unref()[q] == p.1;
                                    if q == j2 {
                                        assert(p.1 == t);
                                    } else {
                                        assert(it2.seq().take(j2).unref()[q] == p.1);
                                    }
                                }
                            }
                            assert forall|p: (NodeId, NodeId)| sj.insert((k, t)).contains(p) implies sj1.contains(p) by {
                                if p == (k, t) {
                                    assert(it2.seq().take(j2 + 1).unref()[j2] == t);
                                } else {
                                    let q = choose|q: int| 0 <= q < j2 && #[trigger] it2.seq().take(j2).unref()[q] == p.1;
                                    assert(it2.seq().take(j2 + 1).unref()[q] == p.1);
                                }
                            }
                        }
                        assert(r@.to_set() =~= base.to_set().union(
                            Set::new(|p: (NodeId, NodeId)| p.0 == k && it2.seq().take(j2 + 1).unref().contains(p.1)),
                        ));
                        assert(it2.seq().take(it2.seq().len() as int) =~= it2.seq());
                        assert(Set::new(|p: (NodeId, NodeId)| p.0 == k && it2.seq().unref().contains(p.1))
                            =~= Set::new(|p: (NodeId, NodeId)| p.0 == k && ts@.contains(p.1))) by {
                            assert forall|p: (NodeId, NodeId)| p.0 == k && ts@.contains(p.1) implies it2.seq().unref().contains(p.1) by {
                                assert(it2.seq().unref().to_set().contains(p.1));
                            }
                        }
                    }
                }
            },
            None => {},
        }
        proof {
            assert(it.seq().take(idx + 1).unref() =~= done.push(k));
            assert(r@.to_set() == base.to_set().union(
                Set::new(|p: (NodeId, NodeId)| p.0 == k && m@[k]@.contains(p.1)),
            ));
            assert(base.to_set() == pairs_from(m@, done));
            assert(r@.to_set() =~= pairs_from(m@, done.push(k))) by {
                assert forall|p: (NodeId, NodeId)| pairs_from(m@, done.push(k)).contains(p) implies r@.to_set().contains(p) by {
                    if p.0 != k {
                        let q = choose|q: int| 0 <= q < done.len() + 1 && done.push(k)[q] == p.0;
                        assert(done[q] == p.0);
                        assert(pairs_from(m@, done).contains(p));
                    }
                }
                assert forall|p: (NodeId, NodeId)| r@.to_set().contains(p) implies pairs_from(m@, done.push(k)).contains(p) by {
                    if p.0 != k {
                        assert(pairs_from(m@, done).contains(p));
                        let q = choose|q: int| 0 <= q < done.len() && done[q] == p.0;
                        assert(done.push(k)[q] == p.0);
                    } else {
                        assert(done.push(k)[done.len() as int] == k);
                    }
                }
            }
            assert(it.seq().take(it.seq().len() as int) =~= it.seq());
            assert(pairs_from(m@, it.seq().unref()) =~= edge_pair_set(m@)) by {
                assert forall|p: (NodeId, NodeId)| edge_pair_set(m@).contains(p) implies it.seq().unref().contains(p.0) by {
                    assert(it.seq().unref().to_set().contains(p.0));
                }
            }
        }
    }
    r
}

// ---------------------------------------------------------------------------
// The report
// ---------------------------------------------------------------------------

/// Where a node is defined: the path as the report shows it, and the line.
pub struct JsonLocation {
    pub path: String,
    pub line: Option<usize>,
}

/// A node of the report.
pub struct JsonNode {
    pub id: String,
    pub kind: String,
    pub canonical_name: String,
    pub name: String,
    pub namespace: Option<String>,
    pub location: Option<JsonLocation>,
}

/// An edge of the report, between node ids.
pub struct JsonEdge {
    pub kind: String,
    pub source: String,
    pub target: String,
}

/// What was analysed, and how paths are shown.
pub struct JsonAnalysis {
    pub root: Option<String>,
    pub inputs: Vec<String>,
    pub node_inclusion_policy: String,
    pub path_kind: String,
}

/// Counts of what the report holds; the per-kind counts are sorted by kind.
pub struct JsonStats {
    pub nodes: usize,
    pub edges: usize,
    pub files_analyzed: usize,
    pub by_node_kind: Vec<(String, usize)>,
    pub by_edge_kind: Vec<(String, usize)>,
}

/// A warning raised while analysing.
pub struct JsonWarning {
    pub code: String,
    pub message: String,
    pub path: Option<String>,
    pub line: Option<usize>,
}

/// A reference that could not be resolved to a node.
pub struct JsonUnresolvedReference {
    pub kind: String,
    pub source: String,
    pub symbol: String,
    pub path: Option<String>,
    pub line: Option<usize>,
}

/// A reference that resolved to more than one candidate.
pub struct JsonAmbiguousResolution {
    pub kind: String,
    pub source: String,
    pub symbol: String,
    pub candidate_targets: Vec<String>,
    pub path: Option<String>,
    pub line: Option<usize>,
}

/// A reference to something outside the analysed code.
pub struct JsonExternalReference {
    pub kind: String,
    pub source: String,
    pub canonical_name: String,
    pub path: Option<String>,
    pub line: Option<usize>,
}

/// A place where the analysis approximated.
pub struct JsonApproximation {
    pub kind: String,
    pub source: String,
    pub symbol: Option<String>,
    pub reason: String,
    pub candidate_targets: Vec<String>,
    pub path: Option<String>,
    pub line: Option<usize>,
}

/// How many diagnostics of each kind the report holds.
pub struct JsonDiagnosticSummary {
    pub warnings: usize,
    pub unresolved_references: usize,
    pub ambiguous_resolutions: usize,
    pub external_references: usize,
    pub approximations: usize,
}

/// The diagnostics of a report, with their summary.
pub struct JsonDiagnostics {
    pub summary: JsonDiagnosticSummary,
    pub warnings: Vec<JsonWarning>,
    pub unresolved_references: Vec<JsonUnresolvedReference>,
    pub ambiguous_resolutions: Vec<JsonAmbiguousResolution>,
    pub external_references: Vec<JsonExternalReference>,
    pub approximations: Vec<JsonApproximation>,
}

impl JsonDiagnostics {
    /// The diagnostics holding the given lists, each kept as given, with a
    /// summary that counts each list.
    pub fn new(
        warnings: Vec<JsonWarning>,
        unresolved_references: Vec<JsonUnresolvedReference>,
        ambiguous_resolutions: Vec<JsonAmbiguousResolution>,
        external_references: Vec<JsonExternalReference>,
        approximations: Vec<JsonApproximation>,
    ) -> (r: Self)
        ensures
            r.warnings@ == warnings@,
            r.unresolved_references@ == unresolved_references@,
            r.ambiguous_resolutions@ == ambiguous_resolutions@,
            r.external_references@ == external_references@,
            r.approximations@ == approximations@,
            r.summary.warnings == warnings@.len(),
            r.summary.unresolved_references == unresolved_references@.len(),
            r.summary.ambiguous_resolutions == ambiguous_resolutions@.len(),
            r.summary.external_references == external_references@.len(),
            r.summary.approximations == approximations@.len(),
    {
        let summary = JsonDiagnosticSummary {
            warnings: warnings.len(),
            unresolved_references: unresolved_references.len(),
            ambiguous_resolutions: ambiguous_resolutions.len(),
            external_references: external_references.len(),
            approximations: approximations.len(),
        };
        JsonDiagnostics {
            summary,
            warnings,
            unresolved_references,
            ambiguous_resolutions,
            external_references,
            approximations,
        }
    }
}

/// Diagnostics with every list empty and every count zero.
pub open spec fn diagnostics_empty(d: JsonDiagnostics) -> bool {
    &&& d.warnings@.len() == 0
    &&& d.unresolved_references@.len() == 0
    &&& d.ambiguous_resolutions@.len() == 0
    &&& d.external_references@.len() == 0
    &&& d.approximations@.len() == 0
    &&& d.summary.warnings == 0
    &&& d.summary.unresolved_references == 0
    &&& d.summary.ambiguous_resolutions == 0
    &&& d.summary.external_references == 0
    &&& d.summary.approximations == 0
}

/// The report of a call graph.
pub struct JsonGraph {
    pub schema_version: String,
    pub graph_mode: String,
    pub analysis: JsonAnalysis,
    pub stats: JsonStats,
    pub nodes: Vec<JsonNode>,
    pub edges: Vec<JsonEdge>,
    pub diagnostics: JsonDiagnostics,
}

/// The report id of the node at position `i` of the node order.
pub open spec fn json_id(i: int) -> Seq<char> {
    "n"@ + decimal((i + 1) as nat)
}

/// The record of a node at position `i`, with paths shown under the
/// analysis root `root`, working directory `cwd` and path kind `pk`.
pub open spec fn node_record_ok(
    rec: JsonNode,
    n: Node,
    i: int,
    root: Option<Seq<char>>,
    cwd: Seq<char>,
    pk: Seq<char>,
) -> bool {
    let canonical = full_name(n.namespace_view(), n.name@);
    let nn = name_and_namespace(n.namespace_view(), n.name@, canonical);
    &&& rec.id@ == json_id(i)
    &&& rec.kind@ == kind_name(n.flavor)
    &&& rec.canonical_name@ == canonical
    &&& rec.name@ == nn.0
    &&& opt_string_view(rec.namespace) == nn.1
    &&& match n.filename {
        None => rec.location is None,
        Some(f) => rec.location matches Some(l) && l.path@ == graph_path(
            root,
            cwd,
            pk,
            resolved_path(cwd, f@),
        ) && l.line == n.line,
    }
}

/// Position table: the position of each node id in `order`.
fn positions(arena_len: usize, order: &Vec<NodeId>) -> (r: Vec<Option<usize>>)
    requires
        forall|j: int| 0 <= j < order@.len() ==> (#[trigger] order@[j]) < arena_len,
        order@.no_duplicates(),
    ensures
        r@.len() == arena_len,
        forall|j: int| 0 <= j < order@.len() ==> r@[#[trigger] order@[j] as int] == Some(j as usize),
        forall|id: int| 0 <= id < arena_len ==> match #[trigger] r@[id] {
            Some(j) => j < order@.len() && order@[j as int] == id,
            None => !order@.contains(id as NodeId),
        },
{
    let mut r: Vec<Option<usize>> = Vec::new();
    let mut k: usize = 0;
    while k < arena_len
        invariant
            k <= arena_len,
            r@.len() == k,
            forall|id: int| 0 <= id < k ==> #[trigger] r@[id] == None::<usize>,
        decreases arena_len - k,
    {
        r.push(None);
        k = k + 1;
    }
    let mut j: usize = 0;
    while j < order.len()
        invariant
            j <= order@.len(),
            forall|q: int| 0 <= q < order@.len() ==> (#[trigger] order@[q]) < arena_len,
            order@.no_duplicates(),
            r@.len() == arena_len,
            forall|q: int| 0 <= q < j ==> r@[#[trigger] order@[q] as int] == Some(q as usize),
            forall|id: int| 0 <= id < arena_len ==> match #[trigger] r@[id] {
                Some(q) => q < j && order@[q as int] == id,
                None => !order@.take(j as int).contains(id as NodeId),
            },
        decreases order@.len() - j,
    {
        let id = order[j];
        r.set(id, Some(j));
        proof {
            assert forall|q: int| 0 <= q < j + 1 implies r@[#[trigger] order@[q] as int] == Some(q as usize) by {
                if q < j {
                    assert(order@[q] != order@[j as int]);
                }
            }
            assert forall|x: int| 0 <= x < arena_len implies match #[trigger] r@[x] {
                Some(q) => q < j + 1 && order@[q as int] == x,
                None => !order@.take(j + 1).contains(x as NodeId),
            } by {
                if x != id {
                    if order@.take(j + 1).contains(x as NodeId) {
                        let q = choose|q: int| 0 <= q < j + 1 && #[trigger] order@.take(j + 1)[q] == x as NodeId;
                        if q < j {
                            assert(order@.take(j as int)[q] == x as NodeId);
                        }
                    }
                }
            }
        }
        j = j + 1;
    }
    proof {
        assert(order@.take(j as int) =~= order@);
    }
    r
}

/// The report id of position `i`.
fn json_id_string(i: usize) -> (r: String)
    requires
        i < usize::MAX,
    ensures
        r@ == json_id(i as int),
{
    let mut r = "n".to_owned();
    append_decimal(&mut r, i + 1);
    r
}

/// The record of a node at position `i`.
fn node_record(f: &PathFormatter, n: &Node, i: usize) -> (r: JsonNode)
    requires
        i < usize::MAX,
    ensures
        node_record_ok(r, *n, i as int, f.root_view(), f.cwd@, f.path_kind@),
{
    let canonical_name = n.get_name();
    let (name, namespace) = node_name_and_namespace(n, canonical_name.as_str());
    let kind = match public_kind(n) {
        Some(k) => k,
        None => "unknown".to_owned(),
    };
    let location = match &n.filename {
        Some(filename) => Some(JsonLocation { path: f.format_location(filename.as_str()), line: n.line }),
        None => None,
    };
    JsonNode { id: json_id_string(i), kind, canonical_name, name, namespace, location }
}

// ---------------------------------------------------------------------------
// Counts by kind
// ---------------------------------------------------------------------------

/// Keys in strictly increasing code-point order.
pub open spec fn strictly_increasing(keys: Seq<Seq<char>>) -> bool {
    forall|a: int, b: int|
        #![trigger keys[a], keys[b]]
        0 <= a < b < keys.len() ==> lex_le(keys[a], keys[b]) && keys[a] != keys[b]
}

/// The (kind, count) entries of a count table, as plain values.
pub open spec fn counts_view(v: Seq<(String, usize)>) -> Seq<(Seq<char>, nat)> {
    v.map_values(|e: (String, usize)| (e.0@, e.1 as nat))
}

/// How often `w` occurs in `words`.
pub open spec fn count_of(words: Seq<Seq<char>>, w: Seq<char>) -> nat
    decreases words.len(),
{
    if words.len() == 0 {
        0
    } else {
        count_of(words.drop_last(), w) + if words.last() == w {
            1nat
        } else {
            0nat
        }
    }
}

/// A count table of `words`: each distinct word once, in code-point
/// order, with the number of times it occurs.
pub open spec fn count_table_ok(t: Seq<(Seq<char>, nat)>, words: Seq<Seq<char>>) -> bool {
    &&& strictly_increasing(t.map_values(|e: (Seq<char>, nat)| e.0))
    &&& t.map_values(|e: (Seq<char>, nat)| e.0).to_set() == words.to_set()
    &&& forall|i: int| 0 <= i < t.len() ==> (#[trigger] t[i]).1 == count_of(words, t[i].0)
}

proof fn lemma_count_of_bound(words: Seq<Seq<char>>, w: Seq<char>)
    ensures
        count_of(words, w) <= words.len(),
    decreases words.len(),
{
    if words.len() > 0 {
        lemma_count_of_bound(words.drop_last(), w);
    }
}

/// How often `w` occurs in `words`.
fn count_equal(words: &Vec<String>, w: &String) -> (r: usize)
    ensures
        r == count_of(words@.map_values(|s: String| s@), w@),
{
    let ghost ws = words@.map_values(|s: String| s@);
    let mut n: usize = 0;
    let mut i: usize = 0;
    while i < words.len()
        invariant
            i <= words@.len(),
            ws == words@.map_values(|s: String| s@),
            n == count_of(ws.take(i as int), w@),
        decreases words@.len() - i,
    {
        assert(ws.take(i + 1).drop_last() =~= ws.take(i as int));
        proof {
            lemma_count_of_bound(ws.take(i as int), w@);
        }
        if words[i] == *w {
            n = n + 1;
        }
        i = i + 1;
    }
    assert(ws.take(i as int) =~= ws);
    n
}

/// The distinct words, in strictly increasing code-point order.
fn distinct_sorted(words: &Vec<String>) -> (r: Vec<String>)
    ensures
        strictly_increasing(r@.map_values(|s: String| s@)),
        r@.map_values(|s: String| s@).to_set() == words@.map_values(|s: String| s@).to_set(),
{
    broadcast use vstd::seq_lib::group_seq_properties;

    let ghost ws = words@.map_values(|s: String| s@);
    let mut out: Vec<String> = Vec::new();
    let mut keys: Vec<Vec<char>> = Vec::new();
    let mut i: usize = 0;
    while i < words.len()
        invariant
            i <= words@.len(),
            ws == words@.map_values(|s: String| s@),
            keys@.len() == out@.len(),
            forall|j: int| 0 <= j < keys@.len() ==> (#[trigger] keys@[j])@ == out@[j]@,
            strictly_increasing(out@.map_values(|s: String| s@)),
            out@.map_values(|s: String| s@).to_set() == ws.take(i as int).to_set(),
        decreases words@.len() - i,
    {
        let ghost os = out@.map_values(|s: String| s@);
        let w = chars_of(words[i].as_str());
        let ghost x = ws[i as int];
        assert(w@ == x);
        let mut p: usize = 0;
        let mut found = false;
        while p < keys.len()
            invariant_except_break
                !found,
            invariant
                p <= keys@.len(),
                keys@.len() == out@.len(),
                forall|j: int| 0 <= j < keys@.len() ==> (#[trigger] keys@[j])@ == out@[j]@,
                os == out@.map_values(|s: String| s@),
                w@ == x,
                forall|j: int| 0 <= j < p ==> lex_le(#[trigger] os[j], x) && os[j] != x,
            ensures
                p <= keys@.len(),
                found ==> p < keys@.len() && os[p as int] == x,
                !found ==> p == keys@.len() || !lex_le(os[p as int], x),
            decreases keys@.len() - p,
        {
            if chars_eq(&keys[p], &w) {
                found = true;
                break;
            }
            if !chars_le(&keys[p], &w) {
                break;
            }
            p = p + 1;
        }
        proof {
            ws.take(i as int).lemma_push_to_set_commute(x);
            assert(ws.take(i + 1) =~= ws.take(i as int).push(x));
        }
        if found {
            proof {
                assert(os[p as int] == x);
                assert(os.to_set().contains(x));
                assert(os.to_set().insert(x) =~= os.to_set());
            }
        } else {
            proof {
                if p < keys@.len() {
                    assert(!lex_le(os[p as int], x));
                    lemma_lex_le_total(os[p as int], x);
                    lemma_lex_le_reflexive(x);
                }
            }
            let ghost old_out = out@;
            out.insert(p, words[i].clone());
            keys.insert(p, w);
            proof {
                let os2 = out@.map_values(|s: String| s@);
                assert(os2 =~= os.insert(p as int, x));
                lemma_insert_strictly_increasing(os, p as int, x);
                lemma_insert_elements(os, p as int, x);
            }
        }
        i = i + 1;
    }
    assert(ws.take(i as int) =~= ws);
    out
}

/// The count table of `words`: each distinct word once, in code-point
/// order, with the number of times it occurs.
fn count_table(words: &Vec<String>) -> (r: Vec<(String, usize)>)
    ensures
        count_table_ok(counts_view(r@), words@.map_values(|s: String| s@)),
{
    let keys = distinct_sorted(words);
    let mut r: Vec<(String, usize)> = Vec::new();
    let mut i: usize = 0;
    while i < keys.len()
        invariant
            i <= keys@.len(),
            r@.len() == i,
            forall|j: int| 0 <= j < i ==> (#[trigger] r@[j]).0@ == keys@[j]@ && r@[j].1 == count_of(
                words@.map_values(|s: String| s@),
                keys@[j]@,
            ),
        decreases keys@.len() - i,
    {
        let c = count_equal(words, &keys[i]);
        r.push((keys[i].clone(), c));
        i = i + 1;
    }
    assert(counts_view(r@).map_values(|e: (Seq<char>, nat)| e.0) =~= keys@.map_values(|s: String| s@));
    r
}

// ---------------------------------------------------------------------------
// Report edges
// ---------------------------------------------------------------------------

/// What orders report edges: source id, target id, kind.
pub open spec fn edge_key(e: JsonEdge) -> (Seq<char>, Seq<char>, Seq<char>) {
    (e.source@, e.target@, e.kind@)
}

/// The keys of a list of report edges.
pub open spec fn edge_keys(es: Seq<JsonEdge>) -> Seq<(Seq<char>, Seq<char>, Seq<char>)> {
    es.map_values(|e: JsonEdge| edge_key(e))
}

/// The report edges of one kind: one for each pair of `pairs` whose ends
/// are both in `order`, between their report ids.
pub open spec fn edge_set(order: Seq<NodeId>, kind: Seq<char>, pairs: Set<(NodeId, NodeId)>) -> Set<
    (Seq<char>, Seq<char>, Seq<char>),
> {
    Set::new(
        |e: (Seq<char>, Seq<char>, Seq<char>)|
            exists|i: int, j: int|
                0 <= i < order.len() && 0 <= j < order.len() && #[trigger] pairs.contains(
                    (order[i], order[j]),
                ) && e == (json_id(i), json_id(j), kind),
    )
}

/// Different positions have different report ids.
pub proof fn lemma_json_id_injective(i: int, j: int)
    requires
        0 <= i,
        0 <= j,
        json_id(i) == json_id(j),
    ensures
        i == j,
{
    reveal_strlit("n");
    assert(json_id(i).drop_first() =~= decimal((i + 1) as nat));
    assert(json_id(j).drop_first() =~= decimal((j + 1) as nat));
    lemma_decimal_injective((i + 1) as nat, (j + 1) as nat);
}

/// Append a report edge of kind `kind` for each pair whose ends both have
/// a position in `pos`.
fn collect_edges(
    pairs: &Vec<(NodeId, NodeId)>,
    kind: &str,
    pos: &Vec<Option<usize>>,
    Ghost(order): Ghost<Seq<NodeId>>,
    edges: &mut Vec<JsonEdge>,
)
    requires
        pairs@.no_duplicates(),
        order.no_duplicates(),
        order.len() < usize::MAX,
        forall|j: int| 0 <= j < order.len() ==> (#[trigger] order[j]) < pos@.len(),
        forall|j: int| 0 <= j < order.len() ==> pos@[#[trigger] order[j] as int] == Some(j as usize),
        forall|id: int| 0 <= id < pos@.len() ==> match #[trigger] pos@[id] {
            Some(j) => j < order.len() && order[j as int] == id,
            None => !order.contains(#[verifier::truncate] (id as NodeId)),
        },
        edge_keys(old(edges)@).no_duplicates(),
        forall|q: int| 0 <= q < old(edges)@.len() ==> (#[trigger] old(edges)@[q]).kind@ != kind@,
    ensures
        edge_keys(final(edges)@).no_duplicates(),
        final(edges)@.len() >= old(edges)@.len(),
        final(edges)@.subrange(0, old(edges)@.len() as int) == old(edges)@,
        forall|q: int| old(edges)@.len() <= q < final(edges)@.len() ==> (#[trigger] final(edges)@[q]).kind@ == kind@,
        edge_keys(final(edges)@.subrange(old(edges)@.len() as int, final(edges)@.len() as int)).to_set()
            == edge_set(order, kind@, pairs@.to_set()),
{
    broadcast use vstd::seq_lib::group_seq_properties;

    let ghost base = edges@;
    let mut q: usize = 0;
    while q < pairs.len()
        invariant
            q <= pairs@.len(),
            pairs@.no_duplicates(),
            order.no_duplicates(),
            order.len() < usize::MAX,
            forall|j: int| 0 <= j < order.len() ==> (#[trigger] order[j]) < pos@.len(),
            forall|j: int| 0 <= j < order.len() ==> pos@[#[trigger] order[j] as int] == Some(j as usize),
            forall|id: int| 0 <= id < pos@.len() ==> match #[trigger] pos@[id] {
                Some(j) => j < order.len() && order[j as int] == id,
                None => !order.contains(#[verifier::truncate] (id as NodeId)),
            },
            edges@.len() >= base.len(),
            edges@.subrange(0, base.len() as int) == base,
            edge_keys(base).no_duplicates(),
            forall|r: int| 0 <= r < base.len() ==> (#[trigger] base[r]).kind@ != kind@,
            forall|r: int| base.len() <= r < edges@.len() ==> (#[trigger] edges@[r]).kind@ == kind@,
            edge_keys(edges@).no_duplicates(),
            edge_keys(edges@.subrange(base.len() as int, edges@.len() as int)).to_set()
                == edge_set(order, kind@, pairs@.take(q as int).to_set()),
        decreases pairs@.len() - q,
    {
        let (s, t) = pairs[q];
        let ghost before = edges@;
        let ghost ps = pairs@.take(q as int);
        let ghost ps1 = pairs@.take(q + 1);
        assert(ps1 =~= ps.push((s, t)));
        proof {
            ps.lemma_push_to_set_commute((s, t));
        }
        if s < pos.len() && t < pos.len() {
            if let (Some(i), Some(j)) = (pos[s], pos[t]) {
                let e = JsonEdge { kind: kind.to_owned(), source: json_id_string(i), target: json_id_string(j) };
                let ghost key = edge_key(e);
                proof {
                    assert(!edge_keys(before).contains(key)) by {
                        if edge_keys(before).contains(key) {
                            let r = choose|r: int| 0 <= r < before.len() && edge_keys(before)[r] == key;
                            if r < base.len() {
                                assert(before[r] == base[r]);
                            } else {
                                let news0 = before.subrange(base.len() as int, before.len() as int);
                                assert(edge_keys(news0)[r - base.len()] == key);
                                assert(edge_keys(news0).to_set().contains(key));
                                assert(edge_set(order, kind@, ps.to_set()).contains(key));
                                let (i2, j2) = choose|i2: int, j2: int|
                                    0 <= i2 < order.len() && 0 <= j2 < order.len() && #[trigger] ps.to_set().contains(
                                        (order[i2], order[j2]),
                                    ) && key == (json_id(i2), json_id(j2), kind@);
                                lemma_json_id_injective(i as int, i2);
                                lemma_json_id_injective(j as int, j2);
                                let w = choose|w: int| 0 <= w < ps.len() && ps[w] == (order[i2], order[j2]);
                                assert(pairs@[w] == pairs@[q as int]);
                            }
                        }
                    }
                }
                edges.push(e);
                proof {
                    assert(edge_keys(edges@) =~= edge_keys(before).push(key));
                    assert(edges@.subrange(0, base.len() as int) =~= base);
                    let news0 = before.subrange(base.len() as int, before.len() as int);
                    let news1 = edges@.subrange(base.len() as int, edges@.len() as int);
                    assert(edge_keys(news1) =~= edge_keys(news0).push(key));
                    edge_keys(news0).lemma_push_to_set_commute(key);
                    assert(ps1.contains((order[i as int], order[j as int]))) by {
                        assert(ps1[q as int] == (s, t));
                    }
                    assert(edge_set(order, kind@, ps1.to_set()) =~= edge_set(order, kind@, ps.to_set()).insert(key)) by {
                        assert forall|k| edge_set(order, kind@, ps1.to_set()).contains(k) implies
                            edge_set(order, kind@, ps.to_set()).insert(k).contains(k) || k == key by {
                        }
                        assert forall|k| edge_set(order, kind@, ps1.to_set()).contains(k) implies
                            #[trigger] edge_set(order, kind@, ps.to_set()).insert(key).contains(k) by {
                            let (i2, j2) = choose|i2: int, j2: int|
                                0 <= i2 < order.len() && 0 <= j2 < order.len() && #[trigger] ps1.to_set().contains(
                                    (order[i2], order[j2]),
                                ) && k == (json_id(i2), json_id(j2), kind@);
                            if (order[i2], order[j2]) != (s, t) {
                                assert(ps.to_set().contains((order[i2], order[j2])));
                            } else {
                                assert(order[i2] == order[i as int]);
                                assert(order[j2] == order[j as int]);
                            }
                        }
                        assert forall|k| edge_set(order, kind@, ps.to_set()).insert(key).contains(k) implies
                            #[trigger] edge_set(order, kind@, ps1.to_set()).contains(k) by {
                            if k == key {
                                assert(ps1.to_set().contains((order[i as int], order[j as int])));
                            } else {
                                let (i2, j2) = choose|i2: int, j2: int|
                                    0 <= i2 < order.len() && 0 <= j2 < order.len() && #[trigger] ps.to_set().contains(
                                        (order[i2], order[j2]),
                                    ) && k == (json_id(i2), json_id(j2), kind@);
                                assert(ps1.to_set().contains((order[i2], order[j2])));
                            }
                        }
                    }
                }
            } else {
                proof {
                    lemma_edge_set_skip(order, kind@, ps, (s, t), pos@);
                }
            }
        } else {
            proof {
                lemma_edge_set_skip(order, kind@, ps, (s, t), pos@);
            }
        }
        q = q + 1;
    }
    assert(pairs@.take(q as int) =~= pairs@);
}

/// A pair with an end outside `order` adds no report edge.
proof fn lemma_edge_set_skip(
    order: Seq<NodeId>,
    kind: Seq<char>,
    ps: Seq<(NodeId, NodeId)>,
    p: (NodeId, NodeId),
    pos: Seq<Option<usize>>,
)
    requires
        !(p.0 < pos.len() && p.1 < pos.len() && pos[p.0 as int] is Some && pos[p.1 as int] is Some),
        forall|j: int| 0 <= j < order.len() ==> (#[trigger] order[j]) < pos.len(),
        forall|j: int| 0 <= j < order.len() ==> pos[#[trigger] order[j] as int] == Some(j as usize),
    ensures
        edge_set(order, kind, ps.push(p).to_set()) == edge_set(order, kind, ps.to_set()),
{
    broadcast use vstd::seq_lib::group_seq_properties;

    ps.lemma_push_to_set_commute(p);
    assert forall|k| edge_set(order, kind, ps.push(p).to_set()).contains(k) implies #[trigger] edge_set(
        order,
        kind,
        ps.to_set(),
    ).contains(k) by {
        let (i2, j2) = choose|i2: int, j2: int|
            0 <= i2 < order.len() && 0 <= j2 < order.len() && #[trigger] ps.push(p).to_set().contains(
                (order[i2], order[j2]),
            ) && k == (json_id(i2), json_id(j2), kind);
        if (order[i2], order[j2]) == p {
            assert(pos[order[i2] as int] == Some(i2 as usize));
            assert(pos[order[j2] as int] == Some(j2 as usize));
        } else {
            assert(ps.to_set().contains((order[i2], order[j2])));
        }
    }
    assert forall|k| edge_set(order, kind, ps.to_set()).contains(k) implies #[trigger] edge_set(
        order,
        kind,
        ps.push(p).to_set(),
    ).contains(k) by {
        let (i2, j2) = choose|i2: int, j2: int|
            0 <= i2 < order.len() && 0 <= j2 < order.len() && #[trigger] ps.to_set().contains(
                (order[i2], order[j2]),
            ) && k == (json_id(i2), json_id(j2), kind);
        assert(ps.push(p).to_set().contains((order[i2], order[j2])));
    }
    assert(edge_set(order, kind, ps.push(p).to_set()) =~= edge_set(order, kind, ps.to_set()));
}

/// The key of an edge, as character vectors.
fn edge_key_chars(e: &JsonEdge) -> (r: (Vec<char>, Vec<char>, Vec<char>))
    ensures
        (r.0@, r.1@, r.2@) == edge_key(*e),
{
    (chars_of(e.source.as_str()), chars_of(e.target.as_str()), chars_of(e.kind.as_str()))
}

/// Whether key `a` comes no later than key `b` in the triple order.
fn triple_chars_le(a: &(Vec<char>, Vec<char>, Vec<char>), b: &(Vec<char>, Vec<char>, Vec<char>)) -> (r: bool)
    ensures
        r == triple_le((a.0@, a.1@, a.2@), (b.0@, b.1@, b.2@)),
{
    if !chars_eq(&a.0, &b.0) {
        chars_le(&a.0, &b.0)
    } else if !chars_eq(&a.1, &b.1) {
        chars_le(&a.1, &b.1)
    } else {
        chars_le(&a.2, &b.2)
    }
}

/// A copy of an edge.
fn copy_edge(e: &JsonEdge) -> (r: JsonEdge)
    ensures
        edge_key(r) == edge_key(*e),
{
    JsonEdge { kind: e.kind.clone(), source: e.source.clone(), target: e.target.clone() }
}

/// The edges ordered by (source, target, kind).
fn sort_edges(edges: &Vec<JsonEdge>) -> (r: Vec<JsonEdge>)
    requires
        edge_keys(edges@).no_duplicates(),
    ensures
        edge_keys(r@).no_duplicates(),
        edge_keys(r@).to_set() == edge_keys(edges@).to_set(),
        sorted_by(edge_keys(r@), triple_order()),
{
    broadcast use vstd::seq_lib::group_seq_properties;

    let ghost all = edge_keys(edges@);
    let mut keys: Vec<(Vec<char>, Vec<char>, Vec<char>)> = Vec::new();
    let mut k: usize = 0;
    while k < edges.len()
        invariant
            k <= edges@.len(),
            all == edge_keys(edges@),
            keys@.len() == k,
            forall|j: int| 0 <= j < k ==> ((#[trigger] keys@[j]).0@, keys@[j].1@, keys@[j].2@) == all[j],
        decreases edges@.len() - k,
    {
        keys.push(edge_key_chars(&edges[k]));
        k = k + 1;
    }
    proof {
        lemma_triple_total_ordering();
    }
    let mut out: Vec<JsonEdge> = Vec::new();
    let mut okeys: Vec<(Vec<char>, Vec<char>, Vec<char>)> = Vec::new();
    let mut i: usize = 0;
    while i < edges.len()
        invariant
            i <= edges@.len(),
            all == edge_keys(edges@),
            all.no_duplicates(),
            keys@.len() == edges@.len(),
            forall|j: int| 0 <= j < keys@.len() ==> ((#[trigger] keys@[j]).0@, keys@[j].1@, keys@[j].2@) == all[j],
            okeys@.len() == out@.len(),
            forall|j: int| 0 <= j < okeys@.len() ==> ((#[trigger] okeys@[j]).0@, okeys@[j].1@, okeys@[j].2@)
                == edge_keys(out@)[j],
            total_ordering(triple_order()),
            edge_keys(out@).no_duplicates(),
            edge_keys(out@).to_set() == all.take(i as int).to_set(),
            sorted_by(edge_keys(out@), triple_order()),
        decreases edges@.len() - i,
    {
        let ghost ks = edge_keys(out@);
        let ghost x = all[i as int];
        let mut p: usize = 0;
        while p < okeys.len() && triple_chars_le(&okeys[p], &keys[i])
            invariant
                p <= okeys@.len(),
                i < keys@.len(),
                okeys@.len() == out@.len(),
                forall|j: int| 0 <= j < okeys@.len() ==> ((#[trigger] okeys@[j]).0@, okeys@[j].1@, okeys@[j].2@)
                    == ks[j],
                ks == edge_keys(out@),
                x == ((keys@[i as int]).0@, keys@[i as int].1@, keys@[i as int].2@),
                forall|j: int| 0 <= j < p ==> triple_le(#[trigger] ks[j], x),
            decreases okeys@.len() - p,
        {
            p = p + 1;
        }
        proof {
            assert(!ks.contains(x)) by {
                if ks.contains(x) {
                    assert(ks.to_set().contains(x));
                    let j = choose|j: int| 0 <= j < i && all.take(i as int)[j] == x;
                    assert(all[j] == all[i as int]);
                }
            }
        }
        let e = copy_edge(&edges[i]);
        let ek = edge_key_chars(&e);
        out.insert(p, e);
        okeys.insert(p, ek);
        proof {
            assert(edge_keys(out@) =~= ks.insert(p as int, x));
            if p < ks.len() {
                assert(triple_order()(ks[p as int], x) || triple_order()(x, ks[p as int]));
            }
            lemma_sorted_insert(ks, p as int, x, triple_order());
            lemma_insert_elements(ks, p as int, x);
            assert(all.take(i + 1) =~= all.take(i as int).push(x));
            all.take(i as int).lemma_push_to_set_commute(x);
        }
        i = i + 1;
    }
    assert(all.take(i as int) =~= all);
    out
}

/// Inserting a key between its neighbours keeps keys strictly increasing.
proof fn lemma_insert_strictly_increasing(os: Seq<Seq<char>>, p: int, x: Seq<char>)
    requires
        strictly_increasing(os),
        0 <= p <= os.len(),
        forall|j: int| 0 <= j < p ==> lex_le(#[trigger] os[j], x) && os[j] != x,
        p < os.len() ==> lex_le(x, os[p]) && x != os[p],
    ensures
        strictly_increasing(os.insert(p, x)),
{
    let os2 = os.insert(p, x);
    assert forall|a: int, b: int| 0 <= a < b < os2.len() implies lex_le(os2[a], os2[b]) && os2[a] != os2[b] by {
        if b < p {
            assert(os2[a] == os[a] && os2[b] == os[b]);
            assert(lex_le(os[a], os[b]) && os[a] != os[b]);
        } else if b == p {
            assert(os2[a] == os[a] && os2[b] == x);
        } else if a < p {
            let c = b - 1;
            assert(os2[a] == os[a] && os2[b] == os[c]);
            assert(0 <= a < c < os.len());
            assert(lex_le(os[a], os[c]) && os[a] != os[c]);
        } else if a == p {
            assert(os2[a] == x && os2[b] == os[b - 1]);
            if b - 1 > p {
                assert(lex_le(os[p], os[b - 1]) && os[p] != os[b - 1]);
                lemma_lex_le_transitive(x, os[p], os[b - 1]);
                if x == os[b - 1] {
                    lemma_lex_le_antisymmetric(x, os[p]);
                }
            }
        } else {
            assert(os2[a] == os[a - 1] && os2[b] == os[b - 1]);
            assert(lex_le(os[a - 1], os[b - 1]) && os[a - 1] != os[b - 1]);
        }
    }
}

// ---------------------------------------------------------------------------
// Building the report
// ---------------------------------------------------------------------------

/// A node order for the report: each defined node once, ordered by
/// namespace, then name.
pub open spec fn order_ok(arena: Seq<Node>, defined: Set<NodeId>, order: Seq<NodeId>) -> bool {
    &&& order.no_duplicates()
    &&& order.to_set() == defined
    &&& sorted_by(keys_of(arena, order), node_key_order())
}

/// Whether node `n` was defined in the file `f`.
pub open spec fn in_file(n: Node, f: Seq<char>) -> bool {
    n.filename matches Some(s) && s@ == f
}

/// The source files of the nodes in `order`.
pub open spec fn file_set(arena: Seq<Node>, order: Seq<NodeId>) -> Set<Seq<char>> {
    Set::new(
        |f: Seq<char>|
            exists|i: int|
                0 <= i < order.len() && in_file(#[trigger] arena[order[i] as int], f),
    )
}

/// The kinds of the nodes in `order`, in order.
pub open spec fn kinds_in(arena: Seq<Node>, order: Seq<NodeId>) -> Seq<Seq<char>> {
    order.map_values(|id: NodeId| kind_name(arena[id as int].flavor))
}

/// The strings of a list.
pub open spec fn strings_view(v: Seq<String>) -> Seq<Seq<char>> {
    v.map_values(|s: String| s@)
}

/// The report of the defined nodes of `arena`, listed in the node order
/// `order`, with the edges of the pair sets `defines` and `uses`, for
/// graph mode `mode`, analysis root `root` (as given), inputs `inputs` (as
/// given) and working directory `cwd`.
pub open spec fn report_ok(
    r: JsonGraph,
    arena: Seq<Node>,
    order: Seq<NodeId>,
    defines: Set<(NodeId, NodeId)>,
    uses: Set<(NodeId, NodeId)>,
    mode: JsonGraphMode,
    root: Option<Seq<char>>,
    inputs: Seq<Seq<char>>,
    cwd: Seq<char>,
) -> bool {
    let rroot = resolved_root(cwd, root);
    let pk = path_kind_of(root, inputs);
    &&& r.schema_version@ == "1"@
    &&& r.graph_mode@ == graph_mode_name(mode)
    &&& opt_string_view(r.analysis.root) == match root {
        Some(y) => Some(displayed_path(cwd, resolved_path(cwd, y))),
        None => None,
    }
    &&& strings_view(r.analysis.inputs@) == inputs.map_values(
        |s: Seq<char>| graph_path(rroot, cwd, pk, resolved_path(cwd, s)),
    )
    &&& r.analysis.node_inclusion_policy@ == "defined_only"@
    &&& r.analysis.path_kind@ == pk
    &&& r.nodes@.len() == order.len()
    &&& forall|i: int|
        0 <= i < order.len() ==> node_record_ok(
            #[trigger] r.nodes@[i],
            arena[order[i] as int],
            i,
            rroot,
            cwd,
            pk,
        )
    &&& edge_keys(r.edges@).no_duplicates()
    &&& sorted_by(edge_keys(r.edges@), triple_order())
    &&& edge_keys(r.edges@).to_set() == edge_set(order, "defines"@, defines).union(
        edge_set(order, "uses"@, uses),
    )
    &&& r.stats.nodes == r.nodes@.len()
    &&& r.stats.edges == r.edges@.len()
    &&& r.stats.files_analyzed == file_set(arena, order).len()
    &&& count_table_ok(counts_view(r.stats.by_node_kind@), kinds_in(arena, order))
    &&& count_table_ok(
        counts_view(r.stats.by_edge_kind@),
        r.edges@.map_values(|e: JsonEdge| e.kind@),
    )
    &&& diagnostics_empty(r.diagnostics)
}

/// `r` is a report of the defined nodes of `arena`: for some node order
/// that lists each defined node once, by namespace and then name, `r` is
/// the report in that order.
pub open spec fn is_report_of(
    r: JsonGraph,
    arena: Seq<Node>,
    defined: Set<NodeId>,
    defines: Set<(NodeId, NodeId)>,
    uses: Set<(NodeId, NodeId)>,
    mode: JsonGraphMode,
    root: Option<Seq<char>>,
    inputs: Seq<Seq<char>>,
    cwd: Seq<char>,
) -> bool {
    exists|order: Seq<NodeId>|
        #[trigger] order_ok(arena, defined, order) && report_ok(
            r,
            arena,
            order,
            defines,
            uses,
            mode,
            root,
            inputs,
            cwd,
        )
}

/// A list of distinct ids below `n` has at most `n` entries.
proof fn lemma_distinct_below(s: Seq<NodeId>, n: nat)
    requires
        s.no_duplicates(),
        forall|i: int| 0 <= i < s.len() ==> (#[trigger] s[i]) < n,
    ensures
        s.len() <= n,
{
    let t = s.map_values(|x: NodeId| x as int);
    assert(t.no_duplicates());
    t.unique_seq_to_set();
    vstd::set_lib::lemma_int_range(0, n as int);
    assert(t.to_set().subset_of(vstd::set_lib::set_int_range(0, n as int)));
    vstd::set_lib::lemma_len_subset(t.to_set(), vstd::set_lib::set_int_range(0, n as int));
}

/// Build the report of a call graph: the defined nodes, ordered by
/// namespace and name and numbered `n1`, `n2`, ... in that order; the
/// `defines` and `uses` edges between defined nodes, ordered by source id,
/// target id and kind; counts by kind and of source files; the paths,
/// shown as `cwd` and the options call for; and empty diagnostics.
pub fn build_json_graph(
    nodes_arena: &[Node],
    defined: &HashSet<NodeId>,
    defines_edges: &HashMap<NodeId, HashSet<NodeId>>,
    uses_edges: &HashMap<NodeId, HashSet<NodeId>>,
    options: &JsonOutputOptions<'_>,
    cwd: String,
) -> (r: JsonGraph)
    requires
        forall|id: NodeId| #[trigger] defined@.contains(id) ==> id < nodes_arena@.len(),
        nodes_arena@.len() < usize::MAX,
    ensures
        is_report_of(
            r,
            nodes_arena@,
            defined@,
            edge_pair_set(defines_edges@),
            edge_pair_set(uses_edges@),
            options.graph_mode,
            match options.analysis_root {
                Some(y) => Some(y@),
                None => None,
            },
            strings_view(options.inputs@),
            cwd@,
        ),
{
    broadcast use vstd::seq_lib::group_seq_properties;

    let ghost cwdv = cwd@;
    let formatter = PathFormatter::new(options.analysis_root, options.inputs, cwd);
    let ghost rroot = formatter.root_view();
    let ghost pk = formatter.path_kind@;

    let ids = collect_ids(defined);
    proof {
        assert forall|i: int| 0 <= i < ids@.len() implies (#[trigger] ids@[i]) < nodes_arena@.len() by {
            assert(ids@.to_set().contains(ids@[i]));
        }
    }
    let order = sort_node_ids(nodes_arena, &ids);
    proof {
        assert forall|i: int| 0 <= i < order@.len() implies (#[trigger] order@[i]) < nodes_arena@.len() by {
            assert(order@.to_set().contains(order@[i]));
            assert(defined@.contains(order@[i]));
        }
        lemma_distinct_below(order@, nodes_arena@.len());
    }
    let pos = positions(nodes_arena.len(), &order);

    // Node records, their kinds and their files.
    let mut nodes: Vec<JsonNode> = Vec::new();
    let mut kinds: Vec<String> = Vec::new();
    let mut files = StringHashSet::new();
    let mut i: usize = 0;
    while i < order.len()
        invariant
            i <= order@.len(),
            order@.len() <= nodes_arena@.len(),
            forall|j: int| 0 <= j < order@.len() ==> (#[trigger] order@[j]) < nodes_arena@.len(),
            rroot == formatter.root_view(),
            pk == formatter.path_kind@,
            cwdv == formatter.cwd@,
            nodes@.len() == i,
            forall|j: int| 0 <= j < i ==> node_record_ok(
                #[trigger] nodes@[j],
                nodes_arena@[order@[j] as int],
                j,
                rroot,
                cwdv,
                pk,
            ),
            strings_view(kinds@) == kinds_in(nodes_arena@, order@.take(i as int)),
            files@ == file_set(nodes_arena@, order@.take(i as int)),
        decreases order@.len() - i,
    {
        let n = &nodes_arena[order[i]];
        let rec = node_record(&formatter, n, i);
        let ghost old_files = files@;
        if let Some(f) = &n.filename {
            files.insert(f.clone());
        }
        let ghost old_kinds = kinds@;
        let kind = rec.kind.clone();
        assert(kind@ == kind_name(nodes_arena@[order@[i as int] as int].flavor));
        kinds.push(kind);
        assert(strings_view(kinds@) =~= strings_view(old_kinds).push(kind@));
        nodes.push(rec);
        proof {
            let pre = order@.take(i as int);
            let pre1 = order@.take(i + 1);
            assert(pre1 =~= pre.push(order@[i as int]));
            assert(strings_view(kinds@) =~= kinds_in(nodes_arena@, pre1));
            assert(files@ =~= file_set(nodes_arena@, pre1)) by {
                assert forall|f: Seq<char>| file_set(nodes_arena@, pre1).contains(f) implies #[trigger] files@.contains(f) by {
                    let q = choose|q: int|
                        0 <= q < pre1.len() && in_file(#[trigger] nodes_arena@[pre1[q] as int], f);
                    if q < i {
                        assert(pre[q] == pre1[q]);
                        assert(file_set(nodes_arena@, pre).contains(f));
                    }
                }
                assert forall|f: Seq<char>| files@.contains(f) implies #[trigger] file_set(nodes_arena@, pre1).contains(f) by {
                    if old_files.contains(f) {
                        let q = choose|q: int|
                            0 <= q < pre.len() && in_file(#[trigger] nodes_arena@[pre[q] as int], f);
                        assert(pre1[q] == pre[q]);
                    } else {
                        assert(pre1[i as int] == order@[i as int]);
                    }
                }
            }
        }
        i = i + 1;
    }
    assert(order@.take(i as int) =~= order@);
    let files_analyzed = files.len();
    let by_node_kind = count_table(&kinds);

    // Edges between defined nodes.
    let defines_pairs = edge_pairs(defines_edges);
    let uses_pairs = edge_pairs(uses_edges);
    let mut edges: Vec<JsonEdge> = Vec::new();
    assert(edge_keys(edges@) =~= Seq::empty());
    collect_edges(&defines_pairs, "defines", &pos, Ghost(order@), &mut edges);
    let ghost defines_part = edges@;
    proof {
        reveal_strlit("defines");
        reveal_strlit("uses");
        assert("defines"@ != "uses"@) by {
            assert("defines"@[0] != "uses"@[0]);
        }
        assert(defines_part.subrange(0, 0) =~= Seq::<JsonEdge>::empty());
        assert(defines_part.subrange(0, defines_part.len() as int) =~= defines_part);
    }
    collect_edges(&uses_pairs, "uses", &pos, Ghost(order@), &mut edges);
    proof {
        let all = edge_keys(edges@);
        let d = edge_keys(defines_part);
        let u = edge_keys(edges@.subrange(defines_part.len() as int, edges@.len() as int));
        assert(all =~= d + u);
        assert(all.to_set() =~= d.to_set().union(u.to_set())) by {
            assert forall|k| all.to_set().contains(k) implies d.to_set().union(u.to_set()).contains(k) by {
                let q = choose|q: int| 0 <= q < all.len() && all[q] == k;
                if q < d.len() {
                    assert(d[q] == k);
                } else {
                    assert(u[q - d.len()] == k);
                }
            }
            assert forall|k| d.to_set().union(u.to_set()).contains(k) implies all.to_set().contains(k) by {
                if d.to_set().contains(k) {
                    let q = choose|q: int| 0 <= q < d.len() && d[q] == k;
                    assert(all[q] == k);
                } else {
                    let q = choose|q: int| 0 <= q < u.len() && u[q] == k;
                    assert(all[q + d.len()] == k);
                }
            }
        }
    }
    let edges = sort_edges(&edges);

    let mut edge_kinds: Vec<String> = Vec::new();
    let mut k: usize = 0;
    while k < edges.len()
        invariant
            k <= edges@.len(),
            strings_view(edge_kinds@) == edges@.take(k as int).map_values(|e: JsonEdge| e.kind@),
        decreases edges@.len() - k,
    {
        let ghost old_kinds = edge_kinds@;
        let kind = edges[k].kind.clone();
        edge_kinds.push(kind);
        assert(strings_view(edge_kinds@) =~= strings_view(old_kinds).push(edges@[k as int].kind@));
        assert(strings_view(edge_kinds@) =~= edges@.take(k + 1).map_values(|e: JsonEdge| e.kind@));
        k = k + 1;
    }
    assert(edges@.take(k as int) =~= edges@);
    let by_edge_kind = count_table(&edge_kinds);

    // What was analysed.
    let root = match options.analysis_root {
        Some(value) => Some(formatter.format_analysis_root(value)),
        None => None,
    };
    let mut inputs: Vec<String> = Vec::new();
    let mut q: usize = 0;
    while q < options.inputs.len()
        invariant
            q <= options.inputs@.len(),
            rroot == formatter.root_view(),
            pk == formatter.path_kind@,
            cwdv == formatter.cwd@,
            strings_view(inputs@) == strings_view(options.inputs@.take(q as int)).map_values(
                |s: Seq<char>| graph_path(rroot, cwdv, pk, resolved_path(cwdv, s)),
            ),
        decreases options.inputs@.len() - q,
    {
        let ghost old_inputs = inputs@;
        let shown = formatter.format_input(options.inputs[q].as_str());
        inputs.push(shown);
        assert(strings_view(inputs@) =~= strings_view(old_inputs).push(shown@));
        assert(strings_view(options.inputs@.take(q + 1)) =~= strings_view(options.inputs@.take(q as int)).push(
            options.inputs@[q as int]@,
        ));
        assert(strings_view(inputs@) =~= strings_view(options.inputs@.take(q + 1)).map_values(
            |s: Seq<char>| graph_path(rroot, cwdv, pk, resolved_path(cwdv, s)),
        ));
        q = q + 1;
    }
    assert(options.inputs@.take(q as int) =~= options.inputs@);

    let n_nodes = nodes.len();
    let n_edges = edges.len();
    let r = JsonGraph {
        schema_version: "1".to_owned(),
        graph_mode: graph_mode_label(&options.graph_mode).to_owned(),
        analysis: JsonAnalysis {
            root,
            inputs,
            node_inclusion_policy: "defined_only".to_owned(),
            path_kind: formatter.path_kind.to_owned(),
        },
        stats: JsonStats {
            nodes: n_nodes,
            edges: n_edges,
            files_analyzed,
            by_node_kind,
            by_edge_kind,
        },
        nodes,
        edges,
        diagnostics: JsonDiagnostics::new(Vec::new(), Vec::new(), Vec::new(), Vec::new(), Vec::new()),
    };
    proof {
        assert(ids@.to_set() == defined@);
        assert(order_ok(nodes_arena@, defined@, order@));
    }
    r
}


// ---------------------------------------------------------------------------
// The report as plain values, and its determinism
// ---------------------------------------------------------------------------

/// A location as plain values.
pub open spec fn location_view(l: Option<JsonLocation>) -> Option<(Seq<char>, Option<usize>)> {
    match l {
        Some(x) => Some((x.path@, x.line)),
        None => None,
    }
}

/// A node record as plain values: id, kind, canonical name, name,
/// namespace, location.
pub open spec fn node_view(n: JsonNode) -> (
    Seq<char>,
    Seq<char>,
    Seq<char>,
    Seq<char>,
    Option<Seq<char>>,
    Option<(Seq<char>, Option<usize>)>,
) {
    (n.id@, n.kind@, n.canonical_name@, n.name@, opt_string_view(n.namespace), location_view(n.location))
}

/// The analysis section as plain values.
pub open spec fn analysis_view(a: JsonAnalysis) -> (Option<Seq<char>>, Seq<Seq<char>>, Seq<char>, Seq<char>) {
    (opt_string_view(a.root), strings_view(a.inputs@), a.node_inclusion_policy@, a.path_kind@)
}

/// The stats section as plain values.
pub open spec fn stats_view(s: JsonStats) -> (usize, usize, usize, Seq<(Seq<char>, nat)>, Seq<(Seq<char>, nat)>) {
    (s.nodes, s.edges, s.files_analyzed, counts_view(s.by_node_kind@), counts_view(s.by_edge_kind@))
}

/// A warning as plain values.
pub open spec fn warning_view(w: JsonWarning) -> (Seq<char>, Seq<char>, Option<Seq<char>>, Option<usize>) {
    (w.code@, w.message@, opt_string_view(w.path), w.line)
}

/// An unresolved reference as plain values.
pub open spec fn unresolved_view(u: JsonUnresolvedReference) -> (
    Seq<char>,
    Seq<char>,
    Seq<char>,
    Option<Seq<char>>,
    Option<usize>,
) {
    (u.kind@, u.source@, u.symbol@, opt_string_view(u.path), u.line)
}

/// An ambiguous resolution as plain values.
pub open spec fn ambiguous_view(a: JsonAmbiguousResolution) -> (
    Seq<char>,
    Seq<char>,
    Seq<char>,
    Seq<Seq<char>>,
    Option<Seq<char>>,
    Option<usize>,
) {
    (a.kind@, a.source@, a.symbol@, strings_view(a.candidate_targets@), opt_string_view(a.path), a.line)
}

/// An external reference as plain values.
pub open spec fn external_view(e: JsonExternalReference) -> (
    Seq<char>,
    Seq<char>,
    Seq<char>,
    Option<Seq<char>>,
    Option<usize>,
) {
    (e.kind@, e.source@, e.canonical_name@, opt_string_view(e.path), e.line)
}

/// An approximation as plain values.
pub open spec fn approximation_view(a: JsonApproximation) -> (
    Seq<char>,
    Seq<char>,
    Option<Seq<char>>,
    Seq<char>,
    Seq<Seq<char>>,
    Option<Seq<char>>,
    Option<usize>,
) {
    (
        a.kind@,
        a.source@,
        opt_string_view(a.symbol),
        a.reason@,
        strings_view(a.candidate_targets@),
        opt_string_view(a.path),
        a.line,
    )
}

/// The diagnostics as plain values: the summary counts, then each list.
pub open spec fn diagnostics_view(d: JsonDiagnostics) -> (
    (usize, usize, usize, usize, usize),
    Seq<(Seq<char>, Seq<char>, Option<Seq<char>>, Option<usize>)>,
    Seq<(Seq<char>, Seq<char>, Seq<char>, Option<Seq<char>>, Option<usize>)>,
    Seq<(Seq<char>, Seq<char>, Seq<char>, Seq<Seq<char>>, Option<Seq<char>>, Option<usize>)>,
    Seq<(Seq<char>, Seq<char>, Seq<char>, Option<Seq<char>>, Option<usize>)>,
    Seq<(Seq<char>, Seq<char>, Option<Seq<char>>, Seq<char>, Seq<Seq<char>>, Option<Seq<char>>, Option<usize>)>,
) {
    (
        (
            d.summary.warnings,
            d.summary.unresolved_references,
            d.summary.ambiguous_resolutions,
            d.summary.external_references,
            d.summary.approximations,
        ),
        d.warnings@.map_values(|w: JsonWarning| warning_view(w)),
        d.unresolved_references@.map_values(|u: JsonUnresolvedReference| unresolved_view(u)),
        d.ambiguous_resolutions@.map_values(|a: JsonAmbiguousResolution| ambiguous_view(a)),
        d.external_references@.map_values(|e: JsonExternalReference| external_view(e)),
        d.approximations@.map_values(|a: JsonApproximation| approximation_view(a)),
    )
}

/// The whole report as plain values, field by field.
pub open spec fn report_view(r: JsonGraph) -> (
    Seq<char>,
    Seq<char>,
    (Option<Seq<char>>, Seq<Seq<char>>, Seq<char>, Seq<char>),
    (usize, usize, usize, Seq<(Seq<char>, nat)>, Seq<(Seq<char>, nat)>),
    Seq<(Seq<char>, Seq<char>, Seq<char>, Seq<char>, Option<Seq<char>>, Option<(Seq<char>, Option<usize>)>)>,
    Seq<(Seq<char>, Seq<char>, Seq<char>)>,
    (
        (usize, usize, usize, usize, usize),
        Seq<(Seq<char>, Seq<char>, Option<Seq<char>>, Option<usize>)>,
        Seq<(Seq<char>, Seq<char>, Seq<char>, Option<Seq<char>>, Option<usize>)>,
        Seq<(Seq<char>, Seq<char>, Seq<char>, Seq<Seq<char>>, Option<Seq<char>>, Option<usize>)>,
        Seq<(Seq<char>, Seq<char>, Seq<char>, Option<Seq<char>>, Option<usize>)>,
        Seq<(Seq<char>, Seq<char>, Option<Seq<char>>, Seq<char>, Seq<Seq<char>>, Option<Seq<char>>, Option<usize>)>,
    ),
) {
    (
        r.schema_version@,
        r.graph_mode@,
        analysis_view(r.analysis),
        stats_view(r.stats),
        r.nodes@.map_values(|n: JsonNode| node_view(n)),
        edge_keys(r.edges@),
        diagnostics_view(r.diagnostics),
    )
}

/// No two of the given ids name nodes with the same namespace and name.
pub open spec fn keys_distinct(arena: Seq<Node>, defined: Set<NodeId>) -> bool {
    forall|a: NodeId, b: NodeId|
        #![trigger defined.contains(a), defined.contains(b)]
        defined.contains(a) && defined.contains(b) && a != b ==> node_key(arena[a as int]) != node_key(
            arena[b as int],
        )
}

/// Where keys are distinct, only one order meets `order_ok`.
proof fn lemma_order_unique(arena: Seq<Node>, defined: Set<NodeId>, o1: Seq<NodeId>, o2: Seq<NodeId>)
    requires
        keys_distinct(arena, defined),
        order_ok(arena, defined, o1),
        order_ok(arena, defined, o2),
    ensures
        o1 == o2,
{
    let k1 = keys_of(arena, o1);
    let k2 = keys_of(arena, o2);
    lemma_node_key_total_ordering();
    assert forall|i: int| 0 <= i < o1.len() implies defined.contains(#[trigger] o1[i]) by {
        assert(o1.to_set().contains(o1[i]));
    }
    assert forall|i: int| 0 <= i < o2.len() implies defined.contains(#[trigger] o2[i]) by {
        assert(o2.to_set().contains(o2[i]));
    }
    assert(k1.no_duplicates()) by {
        assert forall|a: int, b: int| 0 <= a < k1.len() && 0 <= b < k1.len() && a != b implies k1[a] != k1[b] by {
            assert(o1[a] != o1[b]);
            assert(defined.contains(o1[a]) && defined.contains(o1[b]));
        }
    }
    assert(k2.no_duplicates()) by {
        assert forall|a: int, b: int| 0 <= a < k2.len() && 0 <= b < k2.len() && a != b implies k2[a] != k2[b] by {
            assert(o2[a] != o2[b]);
            assert(defined.contains(o2[a]) && defined.contains(o2[b]));
        }
    }
    assert(k1.to_set() =~= k2.to_set()) by {
        assert forall|k| k1.to_set().contains(k) implies k2.to_set().contains(k) by {
            let i = choose|i: int| 0 <= i < k1.len() && k1[i] == k;
            assert(o2.to_set().contains(o1[i]));
            let j = choose|j: int| 0 <= j < o2.len() && o2[j] == o1[i];
            assert(k2[j] == k);
        }
        assert forall|k| k2.to_set().contains(k) implies k1.to_set().contains(k) by {
            let i = choose|i: int| 0 <= i < k2.len() && k2[i] == k;
            assert(o1.to_set().contains(o2[i]));
            let j = choose|j: int| 0 <= j < o1.len() && o1[j] == o2[i];
            assert(k1[j] == k);
        }
    }
    lemma_sorted_set_unique(k1, k2, node_key_order());
    assert(o1 =~= o2) by {
        assert forall|i: int| 0 <= i < o1.len() implies o1[i] == o2[i] by {
            assert(k1[i] == k2[i]);
            assert(defined.contains(o1[i]) && defined.contains(o2[i]));
        }
    }
}

/// A count table is determined by the words it counts.
proof fn lemma_count_table_unique(t1: Seq<(Seq<char>, nat)>, t2: Seq<(Seq<char>, nat)>, words: Seq<Seq<char>>)
    requires
        count_table_ok(t1, words),
        count_table_ok(t2, words),
    ensures
        t1 == t2,
{
    let leq = |a: Seq<char>, b: Seq<char>| lex_le(a, b);
    crate::text::lemma_lex_le_total_ordering();
    let f = |e: (Seq<char>, nat)| e.0;
    let a1 = t1.map_values(f);
    let a2 = t2.map_values(f);
    assert(a1 == t1.map_values(|e: (Seq<char>, nat)| e.0));
    assert(a2 == t2.map_values(|e: (Seq<char>, nat)| e.0));
    assert(sorted_by(a1, leq)) by {
        assert forall|a: int, b: int| 0 <= a < b < a1.len() implies #[trigger] leq(a1[a], a1[b]) by {
            assert(lex_le(a1[a], a1[b]));
        }
    }
    assert(sorted_by(a2, leq)) by {
        assert forall|a: int, b: int| 0 <= a < b < a2.len() implies #[trigger] leq(a2[a], a2[b]) by {
            assert(lex_le(a2[a], a2[b]));
        }
    }
    assert(a1.no_duplicates()) by {
        assert forall|a: int, b: int| 0 <= a < a1.len() && 0 <= b < a1.len() && a != b implies a1[a] != a1[b] by {
            if a < b {
                assert(a1[a] != a1[b]);
            } else {
                assert(a1[b] != a1[a]);
            }
        }
    }
    assert(a2.no_duplicates()) by {
        assert forall|a: int, b: int| 0 <= a < a2.len() && 0 <= b < a2.len() && a != b implies a2[a] != a2[b] by {
            if a < b {
                assert(a2[a] != a2[b]);
            } else {
                assert(a2[b] != a2[a]);
            }
        }
    }
    lemma_sorted_set_unique(a1, a2, leq);
    assert(t1 =~= t2) by {
        assert(t1.len() == a1.len());
        assert forall|i: int| 0 <= i < t1.len() implies t1[i] == t2[i] by {
            assert(a1[i] == a2[i]);
            assert(t1[i].1 == count_of(words, t1[i].0));
            assert(t2[i].1 == count_of(words, t2[i].0));
        }
    }
}

/// Equal inputs give the same report: where no two defined nodes share both
/// namespace and name, any two reports of the same call graph, for the same
/// options and working directory, agree in every field.
pub proof fn law_report_deterministic(
    r1: JsonGraph,
    r2: JsonGraph,
    arena: Seq<Node>,
    defined: Set<NodeId>,
    defines: Set<(NodeId, NodeId)>,
    uses: Set<(NodeId, NodeId)>,
    mode: JsonGraphMode,
    root: Option<Seq<char>>,
    inputs: Seq<Seq<char>>,
    cwd: Seq<char>,
)
    requires
        keys_distinct(arena, defined),
        is_report_of(r1, arena, defined, defines, uses, mode, root, inputs, cwd),
        is_report_of(r2, arena, defined, defines, uses, mode, root, inputs, cwd),
    ensures
        report_view(r1) == report_view(r2),
{
    let o1 = choose|order: Seq<NodeId>|
        #[trigger] order_ok(arena, defined, order) && report_ok(r1, arena, order, defines, uses, mode, root, inputs, cwd);
    let o2 = choose|order: Seq<NodeId>|
        #[trigger] order_ok(arena, defined, order) && report_ok(r2, arena, order, defines, uses, mode, root, inputs, cwd);
    lemma_order_unique(arena, defined, o1, o2);
    let o = o1;
    // Nodes.
    let n1 = r1.nodes@.map_values(|n: JsonNode| node_view(n));
    let n2 = r2.nodes@.map_values(|n: JsonNode| node_view(n));
    assert(n1 =~= n2) by {
        assert forall|i: int| 0 <= i < n1.len() implies n1[i] == n2[i] by {
            assert(node_record_ok(r1.nodes@[i], arena[o[i] as int], i, resolved_root(cwd, root), cwd, path_kind_of(root, inputs)));
            assert(node_record_ok(r2.nodes@[i], arena[o[i] as int], i, resolved_root(cwd, root), cwd, path_kind_of(root, inputs)));
        }
    }
    // Edges.
    let e1 = edge_keys(r1.edges@);
    let e2 = edge_keys(r2.edges@);
    lemma_triple_total_ordering();
    lemma_sorted_set_unique(e1, e2, triple_order());
    let w1 = r1.edges@.map_values(|e: JsonEdge| e.kind@);
    let w2 = r2.edges@.map_values(|e: JsonEdge| e.kind@);
    assert(w1 =~= w2) by {
        assert forall|i: int| 0 <= i < w1.len() implies w1[i] == w2[i] by {
            assert(e1[i] == e2[i]);
        }
    }
    // Stats.
    lemma_count_table_unique(counts_view(r1.stats.by_node_kind@), counts_view(r2.stats.by_node_kind@), kinds_in(arena, o));
    lemma_count_table_unique(counts_view(r1.stats.by_edge_kind@), counts_view(r2.stats.by_edge_kind@), w1);
    assert(stats_view(r1.stats) == stats_view(r2.stats));
    assert(analysis_view(r1.analysis) == analysis_view(r2.analysis));
    // Diagnostics.
    assert(diagnostics_view(r1.diagnostics) =~~= diagnostics_view(r2.diagnostics));
    assert(r1.schema_version@ == r2.schema_version@);
    assert(r1.graph_mode@ == r2.graph_mode@);
}


/// Every call or definition between two defined nodes is in the report,
/// a node's edge to itself among them: where the pair map holds
/// (order[i], order[j]), the report has an edge of that kind from the
/// record at position `i` to the record at position `j`.
pub proof fn law_report_has_every_edge(
    r: JsonGraph,
    arena: Seq<Node>,
    defined: Set<NodeId>,
    order: Seq<NodeId>,
    defines: Set<(NodeId, NodeId)>,
    uses: Set<(NodeId, NodeId)>,
    mode: JsonGraphMode,
    root: Option<Seq<char>>,
    inputs: Seq<Seq<char>>,
    cwd: Seq<char>,
    i: int,
    j: int,
)
    requires
        order_ok(arena, defined, order),
        report_ok(r, arena, order, defines, uses, mode, root, inputs, cwd),
        0 <= i < order.len(),
        0 <= j < order.len(),
    ensures
        uses.contains((order[i], order[j])) ==> exists|k: int|
            0 <= k < r.edges@.len() && (#[trigger] r.edges@[k]).source@ == r.nodes@[i].id@ && r.edges@[k].target@
                == r.nodes@[j].id@ && r.edges@[k].kind@ == "uses"@,
        defines.contains((order[i], order[j])) ==> exists|k: int|
            0 <= k < r.edges@.len() && (#[trigger] r.edges@[k]).source@ == r.nodes@[i].id@ && r.edges@[k].target@
                == r.nodes@[j].id@ && r.edges@[k].kind@ == "defines"@,
{
    let rroot = resolved_root(cwd, root);
    let pk = path_kind_of(root, inputs);
    assert(node_record_ok(r.nodes@[i], arena[order[i] as int], i, rroot, cwd, pk));
    assert(node_record_ok(r.nodes@[j], arena[order[j] as int], j, rroot, cwd, pk));
    let ks = edge_keys(r.edges@);
    if uses.contains((order[i], order[j])) {
        let key = (json_id(i), json_id(j), "uses"@);
        assert(edge_set(order, "uses"@, uses).contains(key));
        assert(ks.to_set().contains(key));
        let k = choose|k: int| 0 <= k < ks.len() && ks[k] == key;
        assert(r.edges@[k].source@ == r.nodes@[i].id@);
    }
    if defines.contains((order[i], order[j])) {
        let key = (json_id(i), json_id(j), "defines"@);
        assert(edge_set(order, "defines"@, defines).contains(key));
        assert(ks.to_set().contains(key));
        let k = choose|k: int| 0 <= k < ks.len() && ks[k] == key;
        assert(r.edges@[k].source@ == r.nodes@[i].id@);
    }
}

/// The report invents no edge: each of its edges joins the records at two
/// positions whose nodes the pair map of the edge's kind joins.
pub proof fn law_report_edges_come_from_pairs(
    r: JsonGraph,
    arena: Seq<Node>,
    defined: Set<NodeId>,
    order: Seq<NodeId>,
    defines: Set<(NodeId, NodeId)>,
    uses: Set<(NodeId, NodeId)>,
    mode: JsonGraphMode,
    root: Option<Seq<char>>,
    inputs: Seq<Seq<char>>,
    cwd: Seq<char>,
    k: int,
)
    requires
        order_ok(arena, defined, order),
        report_ok(r, arena, order, defines, uses, mode, root, inputs, cwd),
        0 <= k < r.edges@.len(),
    ensures
        exists|i: int, j: int|
            0 <= i < order.len() && 0 <= j < order.len() && r.edges@[k].source@ == #[trigger] json_id(i)
                && r.edges@[k].target@ == #[trigger] json_id(j) && ((r.edges@[k].kind@ == "uses"@ && uses.contains(
                (order[i], order[j]),
            )) || (r.edges@[k].kind@ == "defines"@ && defines.contains((order[i], order[j])))),
{
    let ks = edge_keys(r.edges@);
    let key = ks[k];
    assert(ks.to_set().contains(key));
    if edge_set(order, "defines"@, defines).contains(key) {
        let (i, j) = choose|i: int, j: int|
            0 <= i < order.len() && 0 <= j < order.len() && #[trigger] defines.contains((order[i], order[j]))
                && key == (json_id(i), json_id(j), "defines"@);
        assert(json_id(i) == r.edges@[k].source@);
    } else {
        let (i, j) = choose|i: int, j: int|
            0 <= i < order.len() && 0 <= j < order.len() && #[trigger] uses.contains((order[i], order[j])) && key
                == (json_id(i), json_id(j), "uses"@);
        assert(json_id(i) == r.edges@[k].source@);
    }
}

} // verus!
