//! The errors of parsing a header and of building and reading the graph.
use crate::file_node::{views, FileNode};
use vstd::prelude::*;

verus! {

/// Why a header could not become a node.
#[derive(Debug, Clone)]
pub enum FileNodeError {
    /// The header declares a second name: the path and both names.
    TooManyNames(String, Vec<String>),
    /// The header declares no name: the file takes no part in the graph.
    NoNameDefined(String),
    /// The header's layer is not one of the configured layers: the path and
    /// the layer.
    InvalidLayer(String, String),
}

/// Why the graph could not be built or read.
#[derive(Debug, Clone)]
pub enum TopCatError {
    /// A file could not be read: what the system said.
    Io(String),
    /// A header was rejected: the path and the reason.
    InvalidFileHeader(String, String),
    /// The graph was read before it was built.
    GraphMissing,
    /// Two files declare the same name: the name and both paths.
    NameClash(String, String, String),
    /// A node asserts that a name exists which no node has.
    MissingExist(String, String),
    /// A node requires a name which no node has.
    MissingDependency(String, String),
    /// A node requires a node of a later layer.
    InvalidDependency(String, String),
    /// The cycles found, each as the nodes along it.
    CyclicDependency(Vec<Vec<FileNode>>),
    /// Anything else.
    UnknownError(String),
}

/// The text of one decimal digit.
pub open spec fn digit_text(d: nat) -> Seq<char> {
    if d == 0 {
        "0"@
    } else if d == 1 {
        "1"@
    } else if d == 2 {
        "2"@
    } else if d == 3 {
        "3"@
    } else if d == 4 {
        "4"@
    } else if d == 5 {
        "5"@
    } else if d == 6 {
        "6"@
    } else if d == 7 {
        "7"@
    } else if d == 8 {
        "8"@
    } else {
        "9"@
    }
}

/// `n` written in decimal.
pub open spec fn decimal_text(n: nat) -> Seq<char>
    decreases n,
{
    if n < 10 {
        digit_text(n)
    } else {
        decimal_text(n / 10) + digit_text(n % 10)
    }
}

fn digit(d: usize) -> (r: String)
    requires
        d < 10,
    ensures
        r@ == digit_text(d as nat),
{
    if d == 0 {
        String::from_str("0")
    } else if d == 1 {
        String::from_str("1")
    } else if d == 2 {
        String::from_str("2")
    } else if d == 3 {
        String::from_str("3")
    } else if d == 4 {
        String::from_str("4")
    } else if d == 5 {
        String::from_str("5")
    } else if d == 6 {
        String::from_str("6")
    } else if d == 7 {
        String::from_str("7")
    } else if d == 8 {
        String::from_str("8")
    } else {
        String::from_str("9")
    }
}

/// `n` written in decimal.
pub fn decimal(n: usize) -> (r: String)
    ensures
        r@ == decimal_text(n as nat),
    decreases n,
{
    if n < 10 {
        digit(n)
    } else {
        let mut r = decimal(n / 10);
        let d = digit(n % 10);
        r.append(d.as_str());
        r
    }
}

/// The participant lines of the first `k` nodes of a cycle, each name once.
pub open spec fn participants_text(c: Seq<FileNode>, k: int) -> Seq<char>
    decreases k,
{
    if k <= 0 {
        Seq::empty()
    } else {
        participants_text(c, k - 1) + if views_names(c.subrange(0, k - 1)).contains(c[k - 1].name@) {
            Seq::empty()
        } else {
            "      - "@ + c[k - 1].name@ + " ("@ + c[k - 1].path@ + ")\n"@
        }
    }
}

/// The edge lines of the first `k` nodes of a cycle, each to the next.
pub open spec fn edges_text(c: Seq<FileNode>, k: int) -> Seq<char>
    decreases k,
{
    if k <= 0 || c.len() == 0 {
        Seq::empty()
    } else {
        edges_text(c, k - 1) + "      - "@ + c[k - 1].name@ + " -> "@ + c[k % (c.len() as int)].name@ + "\n"@
    }
}

/// The report of the cycle `c`, numbered `i` from one.
pub open spec fn cycle_text(c: Seq<FileNode>, i: nat) -> Seq<char> {
    "  Cycle "@ + decimal_text(i) + ":\n"@ + "    Participants:\n"@ + participants_text(c, c.len() as int)
        + "    Edges:\n"@ + edges_text(c, c.len() as int)
}

/// The reports of the first `k` cycles.
pub open spec fn cycles_text(cs: Seq<Vec<FileNode>>, k: int) -> Seq<char>
    decreases k,
{
    if k <= 0 {
        Seq::empty()
    } else {
        cycles_text(cs, k - 1) + cycle_text(cs[k - 1]@, k as nat)
    }
}

/// The names of some nodes.
pub open spec fn views_names(c: Seq<FileNode>) -> Seq<Seq<char>> {
    c.map_values(|n: FileNode| n.name@)
}

/// Whether one of the first `k` nodes of `c` is named `name`.
fn named_before(c: &Vec<FileNode>, k: usize, name: &String) -> (r: bool)
    requires
        k <= c@.len(),
    ensures
        r == views_names(c@.subrange(0, k as int)).contains(name@),
{
    let mut i: usize = 0;
    while i < k
        invariant
            i <= k,
            k <= c@.len(),
            forall|j: int| 0 <= j < i ==> c@[j].name@ != name@,
        decreases k - i,
    {
        if c[i].name == *name {
            proof {
                assert(views_names(c@.subrange(0, k as int))[i as int] == name@);
            }
            return true;
        }
        i = i + 1;
    }
    proof {
        assert forall|j: int| 0 <= j < views_names(c@.subrange(0, k as int)).len() implies views_names(
            c@.subrange(0, k as int),
        )[j] != name@ by {
            assert(c@[j].name@ != name@);
        }
    }
    false
}

/// The report of the cycle `c`, numbered `i`.
fn cycle_message(c: &Vec<FileNode>, i: usize) -> (r: String)
    ensures
        r@ == cycle_text(c@, i as nat),
{
    let mut m = String::from_str("  Cycle ");
    let num = decimal(i);
    m.append(num.as_str());
    m.append(":\n");
    m.append("    Participants:\n");
    let n = c.len();
    let ghost head = m@;
    let mut k: usize = 0;
    while k < n
        invariant
            k <= n,
            n == c@.len(),
            m@ == head + participants_text(c@, k as int),
        decreases n - k,
    {
        if !named_before(c, k, &c[k].name) {
            m.append("      - ");
            m.append(c[k].name.as_str());
            m.append(" (");
            m.append(c[k].path.as_str());
            m.append(")\n");
        }
        proof {
            assert(m@ =~= head + participants_text(c@, k + 1));
        }
        k = k + 1;
    }
    m.append("    Edges:\n");
    let ghost head2 = m@;
    let mut k: usize = 0;
    while k < n
        invariant
            k <= n,
            n == c@.len(),
            m@ == head2 + edges_text(c@, k as int),
        decreases n - k,
    {
        let next = if k + 1 < n {
            k + 1
        } else {
            0
        };
        proof {
            if k + 1 < n {
                vstd::arithmetic::div_mod::lemma_small_mod((k + 1) as nat, n as nat);
            } else {
                vstd::arithmetic::div_mod::lemma_mod_self_0(n as int);
            }
            assert(next as int == (k + 1) % (n as int));
        }
        m.append("      - ");
        m.append(c[k].name.as_str());
        m.append(" -> ");
        m.append(c[next].name.as_str());
        m.append("\n");
        proof {
            assert(m@ =~= head2 + edges_text(c@, k + 1));
        }
        k = k + 1;
    }
    proof {
        assert(m@ =~= cycle_text(c@, i as nat));
    }
    m
}

/// The message of a failed header read.
pub open spec fn file_node_error_text(e: FileNodeError) -> Seq<char> {
    match e {
        FileNodeError::TooManyNames(x, s) => "Too many names declared in "@ + x@ + ": "@ + crate::file_dag::join_spec(views(s@), ", "@),
        FileNodeError::NoNameDefined(x) => "No name defined in "@ + x@,
        FileNodeError::InvalidLayer(x, l) => "Invalid layer '"@ + l@ + "' declared in "@ + x@,
    }
}

/// The message of a failed build or read.
pub open spec fn top_cat_error_text(e: TopCatError) -> Seq<char> {
    match e {
        TopCatError::GraphMissing => "Graph is None"@,
        TopCatError::InvalidFileHeader(x, s) => "Invalid file header in "@ + x@ + ": "@ + s@,
        TopCatError::NameClash(name, f1, f2) => "Name "@ + name@ + " found in both "@ + f1@ + " and "@ + f2@,
        TopCatError::MissingExist(x, s) => "MissingExist: "@ + x@ + " expects "@ + s@ + " to exist but it is not found"@,
        TopCatError::MissingDependency(x, s) => "MissingDependency: "@ + x@ + " depends on "@ + s@ + " but it is missing"@,
        TopCatError::InvalidDependency(x, s) => "InvalidDependency: "@ + x@ + ": "@ + s@,
        TopCatError::CyclicDependency(cs) => "Cyclic dependency detected:\n"@ + cycles_text(cs@, cs@.len() as int),
        TopCatError::Io(s) => "IO error: "@ + s@,
        TopCatError::UnknownError(s) => "UnknownError: "@ + s@,
    }
}

impl FileNodeError {
    /// The error as text.
    pub fn message(&self) -> (r: String)
        ensures
            r@ == file_node_error_text(*self),
    {
        match self {
            FileNodeError::TooManyNames(x, s) => {
                let mut m = String::from_str("Too many names declared in ");
                m.append(x.as_str());
                m.append(": ");
                let joined = crate::file_dag::join(s, ", ");
                m.append(joined.as_str());
                m
            },
            FileNodeError::NoNameDefined(x) => {
                let mut m = String::from_str("No name defined in ");
                m.append(x.as_str());
                m
            },
            FileNodeError::InvalidLayer(x, l) => {
                let mut m = String::from_str("Invalid layer '");
                m.append(l.as_str());
                m.append("' declared in ");
                m.append(x.as_str());
                m
            },
        }
    }
}

impl TopCatError {
    /// The error as text; for cycles, each with its participants and edges.
    pub fn message(&self) -> (r: String)
        ensures
            r@ == top_cat_error_text(*self),
    {
        match self {
            TopCatError::GraphMissing => String::from_str("Graph is None"),
            TopCatError::InvalidFileHeader(x, s) => {
                let mut m = String::from_str("Invalid file header in ");
                m.append(x.as_str());
                m.append(": ");
                m.append(s.as_str());
                m
            },
            TopCatError::NameClash(name, f1, f2) => {
                let mut m = String::from_str("Name ");
                m.append(name.as_str());
                m.append(" found in both ");
                m.append(f1.as_str());
                m.append(" and ");
                m.append(f2.as_str());
                m
            },
            TopCatError::MissingExist(x, s) => {
                let mut m = String::from_str("MissingExist: ");
                m.append(x.as_str());
                m.append(" expects ");
                m.append(s.as_str());
                m.append(" to exist but it is not found");
                m
            },
            TopCatError::MissingDependency(x, s) => {
                let mut m = String::from_str("MissingDependency: ");
                m.append(x.as_str());
                m.append(" depends on ");
                m.append(s.as_str());
                m.append(" but it is missing");
                m
            },
            TopCatError::InvalidDependency(x, s) => {
                let mut m = String::from_str("InvalidDependency: ");
                m.append(x.as_str());
                m.append(": ");
                m.append(s.as_str());
                m
            },
            TopCatError::CyclicDependency(cs) => {
                let mut m = String::from_str("Cyclic dependency detected:\n");
                let ghost head = m@;
                let mut i: usize = 0;
                while i < cs.len()
                    invariant
                        i <= cs@.len(),
                        m@ == head + cycles_text(cs@, i as int),
                    decreases cs@.len() - i,
                {
                    let text = cycle_message(&cs[i], i + 1);
                    m.append(text.as_str());
                    proof {
                        assert(m@ =~= head + cycles_text(cs@, i + 1));
                    }
                    i = i + 1;
                }
                m
            },
            TopCatError::Io(s) => {
                let mut m = String::from_str("IO error: ");
                m.append(s.as_str());
                m
            },
            TopCatError::UnknownError(s) => {
                let mut m = String::from_str("UnknownError: ");
                m.append(s.as_str());
                m
            },
        }
    }
}

} // verus!
