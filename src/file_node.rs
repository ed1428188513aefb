//! A file's header, read as a node: its name, what it requires, its layer,
//! and what it asserts exists.
use crate::exceptions::FileNodeError;
use vstd::prelude::*;

verus! {

/// A named file of the graph.
#[derive(Debug, Clone)]
pub struct FileNode {
    pub name: String,
    pub path: String,
    /// The names this node requires, each once.
    pub deps: Vec<String>,
    pub layer: String,
    /// The names this node asserts exist somewhere, each once.
    pub ensure_exists: Vec<String>,
}

/// Two nodes are the same node when their names are equal.
impl PartialEq for FileNode {
    fn eq(&self, other: &FileNode) -> (r: bool) {
        self.name == other.name
    }
}

impl vstd::std_specs::cmp::PartialEqSpecImpl for FileNode {
    open spec fn obeys_eq_spec() -> bool {
        true
    }

    open spec fn eq_spec(&self, other: &FileNode) -> bool {
        self.name@ == other.name@
    }
}

impl Eq for FileNode {
}

/// Whether `c` has Unicode's White_Space property: tab through carriage
/// return, space, next line, no-break space, ogham space mark, the spaces
/// from en quad to hair space, the line and paragraph separators, narrow
/// no-break space, medium mathematical space and ideographic space.
pub open spec fn is_white(c: char) -> bool {
    let u = c as u32;
    ||| 0x09 <= u <= 0x0d
    ||| u == 0x20
    ||| u == 0x85
    ||| u == 0xa0
    ||| u == 0x1680
    ||| 0x2000 <= u <= 0x200a
    ||| u == 0x2028
    ||| u == 0x2029
    ||| u == 0x202f
    ||| u == 0x205f
    ||| u == 0x3000
}

/// What `str::to_lowercase` makes of a string.
pub uninterp spec fn lower_of(s: Seq<char>) -> Seq<char>;

/// Whether `c` is white space in Unicode's sense, as `char::is_whitespace`.
fn char_is_whitespace(c: char) -> (r: bool)
    ensures
        r == is_white(c),
{
    let u = c as u32;
    (0x09 <= u && u <= 0x0d) || u == 0x20 || u == 0x85 || u == 0xa0 || u == 0x1680 || (0x2000 <= u
        && u <= 0x200a) || u == 0x2028 || u == 0x2029 || u == 0x202f || u == 0x205f || u == 0x3000
}

/// Relies on `str::to_lowercase`: the result depends on the characters alone.
#[verifier::external_body]
pub(crate) fn lowercase(s: &str) -> (r: String)
    ensures
        r@ == lower_of(s@),
{
    s.to_lowercase()
}

/// `s` with leading white space removed.
pub open spec fn trim_start_spec(s: Seq<char>) -> Seq<char>
    decreases s.len(),
{
    if s.len() > 0 && is_white(s[0]) {
        trim_start_spec(s.drop_first())
    } else {
        s
    }
}

/// `s` with trailing white space removed.
pub open spec fn trim_end_spec(s: Seq<char>) -> Seq<char>
    decreases s.len(),
{
    if s.len() > 0 && is_white(s.last()) {
        trim_end_spec(s.drop_last())
    } else {
        s
    }
}

pub open spec fn trim_spec(s: Seq<char>) -> Seq<char> {
    trim_end_spec(trim_start_spec(s))
}

/// `s` with leading and trailing white space removed, as `str::trim`.
fn trim(s: &str) -> (r: &str)
    ensures
        r@ == trim_spec(s@),
{
    let n = s.unicode_len();
    let mut a: usize = 0;
    proof {
        assert(s@.subrange(0, n as int) =~= s@);
    }
    while a < n && char_is_whitespace(s.get_char(a))
        invariant
            a <= n,
            n == s@.len(),
            trim_start_spec(s@) == trim_start_spec(s@.subrange(a as int, n as int)),
        decreases n - a,
    {
        proof {
            let t = s@.subrange(a as int, n as int);
            assert(t[0] == s@[a as int]);
            assert(t.drop_first() =~= s@.subrange(a + 1, n as int));
        }
        a = a + 1;
    }
    proof {
        let t = s@.subrange(a as int, n as int);
        if t.len() > 0 {
            assert(t[0] == s@[a as int]);
        }
        assert(trim_start_spec(t) == t);
    }
    let mut b: usize = n;
    while b > a && char_is_whitespace(s.get_char(b - 1))
        invariant
            a <= b <= n,
            n == s@.len(),
            trim_end_spec(s@.subrange(a as int, n as int)) == trim_end_spec(s@.subrange(a as int, b as int)),
        decreases b - a,
    {
        proof {
            let t = s@.subrange(a as int, b as int);
            assert(t.last() == s@[b - 1]);
            assert(t.drop_last() =~= s@.subrange(a as int, b - 1));
        }
        b = b - 1;
    }
    proof {
        let t = s@.subrange(a as int, b as int);
        if t.len() > 0 {
            assert(t.last() == s@[b - 1]);
        }
        assert(trim_end_spec(t) == t);
    }
    s.substring_char(a, b)
}

pub open spec fn starts(s: Seq<char>, p: Seq<char>) -> bool {
    p.len() <= s.len() && s.subrange(0, p.len() as int) == p
}

/// Whether `s` begins with `p`.
pub fn starts_with(s: &str, p: &str) -> (r: bool)
    ensures
        r == starts(s@, p@),
{
    let ls = s.unicode_len();
    let lp = p.unicode_len();
    if lp > ls {
        return false;
    }
    let mut i: usize = 0;
    while i < lp
        invariant
            lp <= ls,
            ls == s@.len(),
            lp == p@.len(),
            i <= lp,
            forall|j: int| 0 <= j < i ==> s@[j] == p@[j],
        decreases lp - i,
    {
        if s.get_char(i) != p.get_char(i) {
            proof {
                assert(s@.subrange(0, lp as int)[i as int] != p@[i as int]);
            }
            return false;
        }
        i = i + 1;
    }
    proof {
        assert(s@.subrange(0, lp as int) =~= p@);
    }
    true
}

pub open spec fn is_sep(c: char) -> bool {
    is_white(c) || c == ','
}

/// The piece of `s` from `start` to `i`, if it is not empty.
pub open spec fn piece(s: Seq<char>, start: int, i: int) -> Seq<Seq<char>> {
    if start < i {
        seq![s.subrange(start, i)]
    } else {
        Seq::empty()
    }
}

/// The pieces of `s` from `i` on, between separators, where the current one
/// began at `start`.
pub open spec fn split_from(s: Seq<char>, start: int, i: int) -> Seq<Seq<char>>
    decreases s.len() - i,
{
    if i >= s.len() {
        piece(s, start, s.len() as int)
    } else if is_sep(s[i]) {
        piece(s, start, i) + split_from(s, i + 1, i + 1)
    } else {
        split_from(s, start, i + 1)
    }
}

/// The names listed in `s`, separated by white space or commas.
pub open spec fn tokens(s: Seq<char>) -> Seq<Seq<char>> {
    split_from(s, 0, 0)
}

/// The texts of a list of strings.
pub open spec fn views(s: Seq<String>) -> Seq<Seq<char>> {
    s.map_values(|x: String| x@)
}

/// What the header lines read so far have declared.
pub struct HeaderModel {
    pub name: Seq<char>,
    pub deps: Seq<Seq<char>>,
    pub layer: Seq<char>,
    pub exists: Seq<Seq<char>>,
}

pub open spec fn directive(c: Seq<char>, key: Seq<char>) -> Seq<char> {
    c + key
}

/// The effect of one trimmed, lower-cased header line `l`, where `c` is the
/// comment prefix: the new model, or the two names of a second `name:`.
pub open spec fn apply_line(st: HeaderModel, l: Seq<char>, c: Seq<char>) -> Result<
    HeaderModel,
    Seq<Seq<char>>,
> {
    let np = directive(c, " name:"@);
    let rp = directive(c, " requires:"@);
    let dp = directive(c, " dropped_by:"@);
    let lp = directive(c, " layer:"@);
    let ip = directive(c, " is_initial"@);
    let fp = directive(c, " is_final"@);
    let ep = directive(c, " exists:"@);
    if starts(l, np) {
        let v = trim_spec(l.skip(np.len() as int));
        if st.name.len() == 0 {
            Ok(HeaderModel { name: v, ..st })
        } else {
            Err(seq![st.name, v])
        }
    } else if starts(l, rp) {
        Ok(HeaderModel { deps: st.deps + tokens(l.skip(rp.len() as int)), ..st })
    } else if starts(l, dp) {
        Ok(HeaderModel { deps: st.deps + tokens(l.skip(dp.len() as int)), ..st })
    } else if starts(l, lp) {
        let v = trim_spec(l.skip(lp.len() as int));
        if v.len() > 0 {
            Ok(HeaderModel { layer: v, ..st })
        } else {
            Ok(st)
        }
    } else if starts(l, ip) {
        Ok(HeaderModel { layer: "prepend"@, ..st })
    } else if starts(l, fp) {
        Ok(HeaderModel { layer: "append"@, ..st })
    } else if starts(l, ep) {
        Ok(HeaderModel { exists: st.exists + tokens(l.skip(ep.len() as int)), ..st })
    } else {
        Ok(st)
    }
}

/// A line belongs to the header block when it is empty or begins with the
/// comment prefix.
pub open spec fn in_header(line: Seq<char>, c: Seq<char>) -> bool {
    line.len() == 0 || starts(line, c)
}

/// Where the header block that reaches `i` ends.
pub open spec fn header_end_from(lines: Seq<Seq<char>>, c: Seq<char>, i: int) -> int
    decreases lines.len() - i,
{
    if i >= lines.len() {
        lines.len() as int
    } else if !in_header(lines[i], c) {
        i
    } else {
        header_end_from(lines, c, i + 1)
    }
}

/// The number of lines in the header block.
pub open spec fn header_end(lines: Seq<Seq<char>>, c: Seq<char>) -> int {
    header_end_from(lines, c, 0)
}

pub open spec fn initial_model(fallback: Seq<char>) -> HeaderModel {
    HeaderModel { name: Seq::empty(), deps: Seq::empty(), layer: fallback, exists: Seq::empty() }
}

/// The model after the first `i` lines, empty lines skipped.
pub open spec fn parse_upto(lines: Seq<Seq<char>>, c: Seq<char>, fallback: Seq<char>, i: int) -> Result<
    HeaderModel,
    Seq<Seq<char>>,
>
    decreases i,
{
    if i <= 0 {
        Ok(initial_model(fallback))
    } else {
        match parse_upto(lines, c, fallback, i - 1) {
            Err(e) => Err(e),
            Ok(st) => if lines[i - 1].len() == 0 {
                Ok(st)
            } else {
                apply_line(st, lower_of(trim_spec(lines[i - 1])), c)
            },
        }
    }
}

/// The header's model, or the two names of a second `name:`.
pub open spec fn parse_header(lines: Seq<Seq<char>>, c: Seq<char>, fallback: Seq<char>) -> Result<
    HeaderModel,
    Seq<Seq<char>>,
> {
    parse_upto(lines, c, fallback, header_end(lines, c))
}

/// `v` holds each name of `names` once, and nothing else.
pub open spec fn holds_once(v: Seq<String>, names: Seq<Seq<char>>) -> bool {
    views(v).no_duplicates() && views(v).to_set() == names.to_set()
}

/// `node` is what a header with model `st` at `path` becomes.
pub open spec fn node_of(node: FileNode, path: Seq<char>, st: HeaderModel) -> bool {
    &&& node.name@ == st.name
    &&& node.path@ == path
    &&& node.layer@ == st.layer
    &&& holds_once(node.deps@, st.deps)
    &&& holds_once(node.ensure_exists@, st.exists)
}

/// What reading the header lines `lines` of the file at `path` gives.
pub open spec fn from_file_result(
    r: Result<FileNode, FileNodeError>,
    c: Seq<char>,
    path: Seq<char>,
    lines: Seq<Seq<char>>,
    layers: Seq<Seq<char>>,
    fallback: Seq<char>,
) -> bool {
    match parse_header(lines, c, fallback) {
        Err(names) => match r {
            Err(FileNodeError::TooManyNames(p, v)) => p@ == path && views(v@) == names,
            _ => false,
        },
        Ok(st) => if st.name.len() == 0 {
            match r {
                Err(FileNodeError::NoNameDefined(p)) => p@ == path,
                _ => false,
            }
        } else if !layers.contains(st.layer) {
            match r {
                Err(FileNodeError::InvalidLayer(p, l)) => p@ == path && l@ == st.layer,
                _ => false,
            }
        } else {
            match r {
                Ok(node) => node_of(node, path, st),
                _ => false,
            }
        },
    }
}

impl FileNode {
    pub fn new(
        name: String,
        path: String,
        deps: Vec<String>,
        layer: String,
        ensure_exists: Vec<String>,
    ) -> (r: FileNode)
        ensures
            r.name == name,
            r.path == path,
            r.deps == deps,
            r.layer == layer,
            r.ensure_exists == ensure_exists,
    {
        FileNode { name, path, deps, layer, ensure_exists }
    }

    /// A copy of this node.
    pub fn copy(&self) -> (r: FileNode)
        ensures
            r.name@ == self.name@,
            r.path@ == self.path@,
            r.deps@ == self.deps@,
            r.layer@ == self.layer@,
            r.ensure_exists@ == self.ensure_exists@,
    {
        FileNode {
            name: self.name.clone(),
            path: self.path.clone(),
            deps: copy_names(&self.deps),
            layer: self.layer.clone(),
            ensure_exists: copy_names(&self.ensure_exists),
        }
    }

    /// The names in `line`, separated by white space or commas.
    pub fn split_dependencies(line: &str) -> (r: Vec<String>)
        ensures
            views(r@) == tokens(line@),
    {
        let n = line.unicode_len();
        let mut out: Vec<String> = Vec::new();
        let mut start: usize = 0;
        let mut i: usize = 0;
        while i < n
            invariant
                n == line@.len(),
                start <= i <= n,
                views(out@) + split_from(line@, start as int, i as int) == tokens(line@),
            decreases n - i,
        {
            let c = line.get_char(i);
            if char_is_whitespace(c) || c == ',' {
                let ghost before = views(out@);
                if start < i {
                    let item = line.substring_char(start, i);
                    out.push(String::from_str(item));
                    proof {
                        assert(views(out@) == before + seq![item@]);
                    }
                }
                proof {
                    assert(views(out@) == before + piece(line@, start as int, i as int));
                    assert(before + piece(line@, start as int, i as int) + split_from(line@, (i + 1) as int, (i + 1) as int)
                        == before + (piece(line@, start as int, i as int) + split_from(line@, (i + 1) as int, (i + 1) as int)));
                }
                start = i + 1;
            }
            i = i + 1;
        }
        let ghost before = views(out@);
        if start < n {
            let item = line.substring_char(start, n);
            out.push(String::from_str(item));
            proof {
                assert(views(out@) == before + seq![item@]);
            }
        }
        proof {
            assert(views(out@) =~= before + piece(line@, start as int, n as int));
        }
        out
    }

    /// Reads the header block of a file, given the file's lines: the leading
    /// run of lines that are empty or begin with `comment_str`. Each line of it
    /// is trimmed and lower-cased, then matched against the directives.
    pub fn from_file(
        comment_str: &str,
        path: &str,
        lines: &Vec<String>,
        layers: &Vec<String>,
        fallback_layer: &str,
    ) -> (r: Result<FileNode, FileNodeError>)
        ensures
            from_file_result(r, comment_str@, path@, views(lines@), views(layers@), fallback_layer@),
    {
        let ghost c = comment_str@;
        let ghost ls = views(lines@);
        let ghost fb = fallback_layer@;
        let name_str = directive_text(comment_str, " name:");
        let dep_str = directive_text(comment_str, " requires:");
        let drop_str = directive_text(comment_str, " dropped_by:");
        let layer_str = directive_text(comment_str, " layer:");
        let prepend_str = directive_text(comment_str, " is_initial");
        let append_str = directive_text(comment_str, " is_final");
        let ensure_exists_str = directive_text(comment_str, " exists:");
        let mut name = String::new();
        let mut deps: Vec<String> = Vec::new();
        let mut layer = String::from_str(fallback_layer);
        let mut ensure_exists: Vec<String> = Vec::new();
        let mut i: usize = 0;
        proof {
            assert(views(deps@) =~= Seq::<Seq<char>>::empty());
            assert(views(ensure_exists@) =~= Seq::<Seq<char>>::empty());
        }
        while i < lines.len()
            invariant
                i <= lines@.len(),
                ls == views(lines@),
                c == comment_str@,
                fb == fallback_layer@,
                name_str@ == directive(c, " name:"@),
                dep_str@ == directive(c, " requires:"@),
                drop_str@ == directive(c, " dropped_by:"@),
                layer_str@ == directive(c, " layer:"@),
                prepend_str@ == directive(c, " is_initial"@),
                append_str@ == directive(c, " is_final"@),
                ensure_exists_str@ == directive(c, " exists:"@),
                header_end(ls, c) == header_end_from(ls, c, i as int),
                parse_upto(ls, c, fb, i as int) is Ok,
                name@ == parse_upto(ls, c, fb, i as int)->Ok_0.name,
                layer@ == parse_upto(ls, c, fb, i as int)->Ok_0.layer,
                holds_once(deps@, parse_upto(ls, c, fb, i as int)->Ok_0.deps),
                holds_once(ensure_exists@, parse_upto(ls, c, fb, i as int)->Ok_0.exists),
            ensures
                header_end(ls, c) == i as int,
                parse_upto(ls, c, fb, i as int) is Ok,
                name@ == parse_upto(ls, c, fb, i as int)->Ok_0.name,
                layer@ == parse_upto(ls, c, fb, i as int)->Ok_0.layer,
                holds_once(deps@, parse_upto(ls, c, fb, i as int)->Ok_0.deps),
                holds_once(ensure_exists@, parse_upto(ls, c, fb, i as int)->Ok_0.exists),
            decreases lines@.len() - i,
        {
            let raw = lines[i].as_str();
            proof {
                assert(raw@ == ls[i as int]);
            }
            if raw.unicode_len() == 0 {
                proof {
                    assert(ls.len() == lines@.len());
                    assert(in_header(ls[i as int], c));
                    assert(header_end_from(ls, c, i as int) == header_end_from(ls, c, (i + 1) as int));
                }
                i = i + 1;
                continue;
            }
            if !starts_with(raw, comment_str) {
                proof {
                    assert(ls.len() == lines@.len());
                    assert(!in_header(ls[i as int], c));
                    assert(header_end_from(ls, c, i as int) == i as int);
                }
                break;
            }
            proof {
                assert(ls.len() == lines@.len());
                assert(in_header(ls[i as int], c));
                assert(header_end_from(ls, c, i as int) == header_end_from(ls, c, (i + 1) as int));
                lemma_header_end_at_least(ls, c, (i + 1) as int);
            }
            let ghost st = parse_upto(ls, c, fb, i as int)->Ok_0;
            let lowered = lowercase(trim(raw));
            let l = lowered.as_str();
            let ll = l.unicode_len();
            proof {
                assert(parse_upto(ls, c, fb, (i + 1) as int) == apply_line(st, l@, c));
            }
            if starts_with(l, name_str.as_str()) {
                let value = trim(l.substring_char(name_str.unicode_len(), ll));
                proof {
                    assert(l@.skip(name_str@.len() as int) =~= l@.subrange(name_str@.len() as int, ll as int));
                }
                if name.unicode_len() == 0 {
                    name = String::from_str(value);
                } else {
                    let names = vec![name, String::from_str(value)];
                    proof {
                        assert(views(names@) =~= seq![st.name, value@]);
                        lemma_error_persists(ls, c, fb, (i + 1) as int, header_end(ls, c));
                    }
                    return Err(FileNodeError::TooManyNames(String::from_str(path), names));
                }
            } else if starts_with(l, dep_str.as_str()) {
                let items = Self::split_dependencies(l.substring_char(dep_str.unicode_len(), ll));
                proof {
                    assert(l@.skip(dep_str@.len() as int) =~= l@.subrange(dep_str@.len() as int, ll as int));
                    vstd::seq_lib::seq_to_set_distributes_over_add(st.deps, views(items@));
                }
                add_names(&mut deps, &items);
            } else if starts_with(l, drop_str.as_str()) {
                let items = Self::split_dependencies(l.substring_char(drop_str.unicode_len(), ll));
                proof {
                    assert(l@.skip(drop_str@.len() as int) =~= l@.subrange(drop_str@.len() as int, ll as int));
                    vstd::seq_lib::seq_to_set_distributes_over_add(st.deps, views(items@));
                }
                add_names(&mut deps, &items);
            } else if starts_with(l, layer_str.as_str()) {
                let value = trim(l.substring_char(layer_str.unicode_len(), ll));
                proof {
                    assert(l@.skip(layer_str@.len() as int) =~= l@.subrange(layer_str@.len() as int, ll as int));
                }
                if value.unicode_len() > 0 {
                    layer = String::from_str(value);
                }
            } else if starts_with(l, prepend_str.as_str()) {
                layer = String::from_str("prepend");
            } else if starts_with(l, append_str.as_str()) {
                layer = String::from_str("append");
            } else if starts_with(l, ensure_exists_str.as_str()) {
                let items = Self::split_dependencies(l.substring_char(ensure_exists_str.unicode_len(), ll));
                proof {
                    assert(l@.skip(ensure_exists_str@.len() as int) =~= l@.subrange(ensure_exists_str@.len() as int, ll as int));
                    vstd::seq_lib::seq_to_set_distributes_over_add(st.exists, views(items@));
                }
                add_names(&mut ensure_exists, &items);
            }
            i = i + 1;
        }
        if name.unicode_len() == 0 {
            return Err(FileNodeError::NoNameDefined(String::from_str(path)));
        }
        if !contains_name(layers, &layer) {
            return Err(FileNodeError::InvalidLayer(String::from_str(path), layer));
        }
        Ok(FileNode::new(name, String::from_str(path), deps, layer, ensure_exists))
    }
}

/// The header block reaching `i` ends at `i` or later.
proof fn lemma_header_end_at_least(lines: Seq<Seq<char>>, c: Seq<char>, i: int)
    requires
        0 <= i <= lines.len(),
    ensures
        header_end_from(lines, c, i) >= i,
    decreases lines.len() - i,
{
    if i < lines.len() && in_header(lines[i], c) {
        lemma_header_end_at_least(lines, c, i + 1);
    }
}

/// Once a line has failed, the lines after it change nothing.
proof fn lemma_error_persists(lines: Seq<Seq<char>>, c: Seq<char>, fb: Seq<char>, i: int, j: int)
    requires
        i <= j,
        parse_upto(lines, c, fb, i) is Err,
    ensures
        parse_upto(lines, c, fb, j) == parse_upto(lines, c, fb, i),
    decreases j - i,
{
    if i < j {
        lemma_error_persists(lines, c, fb, i, j - 1);
    }
}

/// `c` followed by `key`.
fn directive_text(c: &str, key: &str) -> (r: String)
    ensures
        r@ == directive(c@, key@),
{
    let mut r = String::from_str(c);
    r.append(key);
    r
}

/// A copy of a list of strings.
pub fn copy_names(v: &Vec<String>) -> (r: Vec<String>)
    ensures
        r@ == v@,
{
    let mut r: Vec<String> = Vec::new();
    let mut i: usize = 0;
    while i < v.len()
        invariant
            i <= v@.len(),
            r@ == v@.subrange(0, i as int),
        decreases v@.len() - i,
    {
        r.push(v[i].clone());
        proof {
            assert(r@ =~= v@.subrange(0, i + 1));
        }
        i = i + 1;
    }
    proof {
        assert(r@ =~= v@);
    }
    r
}

/// Whether `v` holds the text of `x`.
pub fn contains_name(v: &Vec<String>, x: &String) -> (r: bool)
    ensures
        r == views(v@).contains(x@),
{
    let mut i: usize = 0;
    while i < v.len()
        invariant
            i <= v@.len(),
            forall|j: int| 0 <= j < i ==> v@[j]@ != x@,
        decreases v@.len() - i,
    {
        if v[i] == *x {
            proof {
                assert(views(v@)[i as int] == x@);
            }
            return true;
        }
        i = i + 1;
    }
    proof {
        assert forall|j: int| 0 <= j < views(v@).len() implies views(v@)[j] != x@ by {
            assert(v@[j]@ != x@);
        }
    }
    false
}

/// Adds to `set` each name of `items` that it does not hold yet.
fn add_names(set: &mut Vec<String>, items: &Vec<String>)
    requires
        views(old(set)@).no_duplicates(),
    ensures
        views(final(set)@).no_duplicates(),
        views(final(set)@).to_set() == views(old(set)@).to_set() + views(items@).to_set(),
{
    let mut i: usize = 0;
    while i < items.len()
        invariant
            i <= items@.len(),
            views(set@).no_duplicates(),
            views(set@).to_set() == views(old(set)@).to_set() + views(items@.subrange(0, i as int)).to_set(),
        decreases items@.len() - i,
    {
        let ghost before = views(set@);
        if !contains_name(set, &items[i]) {
            set.push(items[i].clone());
            proof {
                assert(views(set@) =~= before.push(items@[i as int]@));
                before.lemma_push_to_set_commute(items@[i as int]@);
            }
        }
        proof {
            assert(views(items@.subrange(0, i + 1)) =~= views(items@.subrange(0, i as int)).push(items@[i as int]@));
            views(items@.subrange(0, i as int)).lemma_push_to_set_commute(items@[i as int]@);
            assert(views(set@).to_set() =~= views(old(set)@).to_set() + views(items@.subrange(0, i + 1)).to_set());
        }
        i = i + 1;
    }
    proof {
        assert(items@.subrange(0, i as int) =~= items@);
    }
}

} // verus!
