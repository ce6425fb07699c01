use base64::Engine;
use vstd::prelude::*;
use vstd::utf8::{valid_utf8, decode_utf8};
use crate::types::{NodeId, EdgeType, NodePayload, EdgePayload, GraphPayload};
use crate::graph::{Graph, GraphView};
use crate::interner::{Interner, interned, intern_id, interner_capacity};
use crate::text::{lowercase, to_lowercase, contains_text, ends_with_text, starts_with_text, chars_of,
    seq_contains, seq_ends_with, seq_starts_with, slice_chars, string_from_chars, str_contains, push_str};

verus! {

broadcast use vstd::seq_lib::group_seq_properties;

/// One item of a repository tree listing, as far as file selection reads it.
pub struct TreeEntry {
    pub entry_type: Option<String>,
    pub path: Option<String>,
    pub size: Option<u64>,
}

/// File name endings of source files that are worth reading.
pub open spec fn code_extensions() -> Seq<Seq<char>> {
    seq![".rs"@, ".ts"@, ".tsx"@, ".js"@, ".jsx"@, ".py"@, ".go"@, ".c"@, ".h"@, ".cpp"@, ".java"@, ".swift"@]
}

/// Path fragments of generated, vendored or test trees.
pub open spec fn junk_markers() -> Seq<Seq<char>> {
    seq!["node_modules"@, ".next"@, "dist"@, "build"@, "/tests/"@, "/test/"@]
}

/// Largest file size, in bytes, worth fetching.
pub open spec fn max_file_size() -> u64 {
    51200
}

/// Most files a repository graph is built from.
pub open spec fn max_files() -> nat {
    80
}

pub open spec fn has_code_extension(lower: Seq<char>) -> bool {
    exists|i: int| 0 <= i < code_extensions().len() && ends_with_text(lower, #[trigger] code_extensions()[i])
}

pub open spec fn is_junk(lower: Seq<char>) -> bool {
    exists|i: int| 0 <= i < junk_markers().len() && contains_text(lower, #[trigger] junk_markers()[i])
}

/// A path under a `src/` or `app/` directory, which goes first.
pub open spec fn is_core(path: Seq<char>) -> bool {
    contains_text(path, "src/"@) || contains_text(path, "app/"@)
}

/// A tree item worth fetching: a blob whose lowercase path has a code
/// extension and no junk marker, of size between 1 and 51200 bytes.
pub open spec fn eligible(e: TreeEntry) -> bool {
    &&& e.entry_type matches Some(t) && t@ == "blob"@
    &&& e.path matches Some(p) && {
        let lower = lowercase(p@);
        &&& has_code_extension(lower)
        &&& !is_junk(lower)
        &&& {
            let size = match e.size { Some(s) => s, None => 0 };
            0 < size <= max_file_size()
        }
    }
}

/// The paths of the eligible items, in listing order.
pub open spec fn eligible_paths(tree: Seq<TreeEntry>) -> Seq<Seq<char>>
    decreases tree.len(),
{
    if tree.len() == 0 {
        Seq::empty()
    } else {
        let rest = eligible_paths(tree.drop_last());
        if eligible(tree.last()) { rest.push(tree.last().path->0@) } else { rest }
    }
}

/// The files a repository graph is built from: eligible paths, those under
/// `src/` or `app/` first, each group in listing order, at most 80.
pub open spec fn target_files(tree: Seq<TreeEntry>) -> Seq<Seq<char>> {
    let kept = eligible_paths(tree);
    let ordered = kept.filter(|p: Seq<char>| is_core(p)) + kept.filter(|p: Seq<char>| !is_core(p));
    if ordered.len() <= max_files() { ordered } else { ordered.take(max_files() as int) }
}

/// A lowercase path has a code extension exactly when it ends in one of
/// `.rs`, `.ts`, `.tsx`, `.js`, `.jsx`, `.py`, `.go`, `.c`, `.h`, `.cpp`,
/// `.java` or `.swift`.
pub proof fn lemma_code_extensions(lower: Seq<char>)
    ensures
        has_code_extension(lower) <==> (
            ends_with_text(lower, ".rs"@) || ends_with_text(lower, ".ts"@) || ends_with_text(lower, ".tsx"@)
            || ends_with_text(lower, ".js"@) || ends_with_text(lower, ".jsx"@) || ends_with_text(lower, ".py"@)
            || ends_with_text(lower, ".go"@) || ends_with_text(lower, ".c"@) || ends_with_text(lower, ".h"@)
            || ends_with_text(lower, ".cpp"@) || ends_with_text(lower, ".java"@) || ends_with_text(lower, ".swift"@)),
{
    let exts = code_extensions();
    assert(exts[0] == ".rs"@);
    assert(exts[1] == ".ts"@);
    assert(exts[2] == ".tsx"@);
    assert(exts[3] == ".js"@);
    assert(exts[4] == ".jsx"@);
    assert(exts[5] == ".py"@);
    assert(exts[6] == ".go"@);
    assert(exts[7] == ".c"@);
    assert(exts[8] == ".h"@);
    assert(exts[9] == ".cpp"@);
    assert(exts[10] == ".java"@);
    assert(exts[11] == ".swift"@);
    assert(exts.len() == 12);
}

/// A blob of 1 to 51200 bytes whose lowercase path ends in a code
/// extension and holds none of `node_modules`, `.next`, `dist`, `build`,
/// `/tests/`, `/test/` is eligible, and an eligible item is such a blob.
pub proof fn lemma_eligible_rule(e: TreeEntry)
    ensures
        eligible(e) <==> ({
            &&& e.entry_type matches Some(t) && t@ == "blob"@
            &&& e.path matches Some(p) && {
                let lower = lowercase(p@);
                &&& has_code_extension(lower)
                &&& !contains_text(lower, "node_modules"@)
                &&& !contains_text(lower, ".next"@)
                &&& !contains_text(lower, "dist"@)
                &&& !contains_text(lower, "build"@)
                &&& !contains_text(lower, "/tests/"@)
                &&& !contains_text(lower, "/test/"@)
            }
            &&& e.size matches Some(size) && 1 <= size <= 51200
        }),
{
    let marks = junk_markers();
    assert(marks[0] == "node_modules"@);
    assert(marks[1] == ".next"@);
    assert(marks[2] == "dist"@);
    assert(marks[3] == "build"@);
    assert(marks[4] == "/tests/"@);
    assert(marks[5] == "/test/"@);
    assert(marks.len() == 6);
    if let Some(p) = e.path {
        let lower = lowercase(p@);
        if is_junk(lower) {
            let i = choose|i: int| 0 <= i < marks.len() && contains_text(lower, #[trigger] marks[i]);
            assert(i == 0 || i == 1 || i == 2 || i == 3 || i == 4 || i == 5);
        }
    }
}

fn code_extension_list() -> (v: Vec<&'static str>)
    ensures
        v@.map_values(|s: &str| s@) == code_extensions(),
{
    let v = vec![".rs", ".ts", ".tsx", ".js", ".jsx", ".py", ".go", ".c", ".h", ".cpp", ".java", ".swift"];
    assert(v@.map_values(|s: &str| s@) =~= code_extensions());
    v
}

fn junk_marker_list() -> (v: Vec<&'static str>)
    ensures
        v@.map_values(|s: &str| s@) == junk_markers(),
{
    let v = vec!["node_modules", ".next", "dist", "build", "/tests/", "/test/"];
    assert(v@.map_values(|s: &str| s@) =~= junk_markers());
    v
}

/// Whether a lowercase path ends with one of the code extensions.
fn has_code_extension_exec(lower: &Vec<char>) -> (b: bool)
    ensures
        b == has_code_extension(lower@),
{
    let exts = code_extension_list();
    let mut i: usize = 0;
    while i < exts.len()
        invariant
            i <= exts@.len(),
            exts@.map_values(|s: &str| s@) == code_extensions(),
            forall|j: int| 0 <= j < i ==> !ends_with_text(lower@, #[trigger] code_extensions()[j]),
        decreases exts.len() - i,
    {
        let e = chars_of(exts[i]);
        assert(e@ == code_extensions()[i as int]);
        if seq_ends_with(lower, &e) {
            return true;
        }
        i += 1;
    }
    false
}

/// Whether a lowercase path holds one of the junk markers.
fn is_junk_exec(lower: &Vec<char>) -> (b: bool)
    ensures
        b == is_junk(lower@),
{
    let marks = junk_marker_list();
    let mut i: usize = 0;
    while i < marks.len()
        invariant
            i <= marks@.len(),
            marks@.map_values(|s: &str| s@) == junk_markers(),
            forall|j: int| 0 <= j < i ==> !contains_text(lower@, #[trigger] junk_markers()[j]),
        decreases marks.len() - i,
    {
        let m = chars_of(marks[i]);
        assert(m@ == junk_markers()[i as int]);
        if seq_contains(lower, &m) {
            return true;
        }
        i += 1;
    }
    false
}

/// Whether a tree item is worth fetching.
pub fn is_eligible(e: &TreeEntry) -> (b: bool)
    ensures
        b == eligible(*e),
{
    let is_blob = match &e.entry_type {
        Some(t) => crate::text::str_eq(t.as_str(), "blob"),
        None => false,
    };
    if !is_blob {
        return false;
    }
    match &e.path {
        Some(p) => {
            let lower = to_lowercase(p.as_str());
            let lower = chars_of(lower.as_str());
            if !has_code_extension_exec(&lower) || is_junk_exec(&lower) {
                return false;
            }
            let size: u64 = match e.size {
                Some(s) => s,
                None => 0,
            };
            size > 0 && size <= 51200
        },
        None => false,
    }
}

/// Whether a path lies under a `src/` or `app/` directory.
pub fn is_core_path(path: &str) -> (b: bool)
    ensures
        b == is_core(path@),
{
    str_contains(path, "src/") || str_contains(path, "app/")
}

/// The paths of the eligible tree items, core files first, at most 80; an
/// error when there are none.
pub fn select_target_files(tree: &Vec<TreeEntry>) -> (files: Result<Vec<String>, String>)
    ensures
        files matches Ok(v) ==> v@.map_values(|s: String| s@) == target_files(tree@) && v@.len() > 0,
        files matches Err(msg) ==> target_files(tree@).len() == 0
            && msg@ == "No eligible code files found in repository."@,
{
    let mut kept: Vec<String> = Vec::new();
    let mut i: usize = 0;
    while i < tree.len()
        invariant
            i <= tree@.len(),
            kept@.map_values(|s: String| s@) == eligible_paths(tree@.take(i as int)),
        decreases tree.len() - i,
    {
        proof {
            assert(tree@.take(i + 1).drop_last() == tree@.take(i as int));
            assert(tree@.take(i + 1).last() == tree@[i as int]);
        }
        if is_eligible(&tree[i]) {
            match &tree[i].path {
                Some(p) => {
                    kept.push(p.clone());
                    proof {
                        assert(kept@.map_values(|s: String| s@) =~= eligible_paths(tree@.take(i + 1)));
                    }
                },
                None => {},
            }
        }
        i += 1;
    }
    assert(tree@.take(tree@.len() as int) == tree@);
    let ghost kv = kept@.map_values(|s: String| s@);
    let mut core: Vec<String> = Vec::new();
    let mut rest: Vec<String> = Vec::new();
    let mut i: usize = 0;
    while i < kept.len()
        invariant
            i <= kept@.len(),
            kv == kept@.map_values(|s: String| s@),
            core@.map_values(|s: String| s@) == kv.take(i as int).filter(|p: Seq<char>| is_core(p)),
            rest@.map_values(|s: String| s@) == kv.take(i as int).filter(|p: Seq<char>| !is_core(p)),
            core@.len() + rest@.len() == i,
        decreases kept.len() - i,
    {
        let p = kept[i].clone();
        proof {
            assert(kv.take(i + 1) == kv.take(i as int).push(kv[i as int]));
            kv.take(i as int).lemma_filter_push(kv[i as int], |p: Seq<char>| is_core(p));
            kv.take(i as int).lemma_filter_push(kv[i as int], |p: Seq<char>| !is_core(p));
        }
        if is_core_path(p.as_str()) {
            core.push(p);
            assert(core@.map_values(|s: String| s@) =~= kv.take(i + 1).filter(|p: Seq<char>| is_core(p)));
        } else {
            rest.push(p);
            assert(rest@.map_values(|s: String| s@) =~= kv.take(i + 1).filter(|p: Seq<char>| !is_core(p)));
        }
        i += 1;
    }
    assert(kv.take(kv.len() as int) == kv);
    let ghost ordered = kv.filter(|p: Seq<char>| is_core(p)) + kv.filter(|p: Seq<char>| !is_core(p));
    let total = kept.len();
    assert(ordered.len() == total);
    let mut files: Vec<String> = Vec::new();
    let mut i: usize = 0;
    while i < total && i < 80
        invariant
            total == ordered.len(),
            core@.map_values(|s: String| s@) + rest@.map_values(|s: String| s@) == ordered,
            i <= ordered.len(),
            i <= 80,
            files@.map_values(|s: String| s@) == ordered.take(i as int),
        decreases total - i,
    {
        let p = if i < core.len() { core[i].clone() } else { rest[i - core.len()].clone() };
        assert(p@ == ordered[i as int]);
        let ghost prev = files@;
        files.push(p);
        assert(files@ == prev.push(p));
        assert(ordered.take(i + 1) =~= ordered.take(i as int).push(ordered[i as int]));
        assert(files@.map_values(|s: String| s@) =~= prev.map_values(|s: String| s@).push(p@));
        i += 1;
    }
    proof {
        if ordered.len() <= 80 {
            assert(ordered.take(ordered.len() as int) == ordered);
        }
    }
    if files.len() == 0 {
        let msg = chars_of("No eligible code files found in repository.");
        return Err(string_from_chars(&msg));
    }
    Ok(files)
}

/// Why the content of a fetched file could not be read.
#[derive(Debug, Clone, Copy, PartialEq, Eq, Structural)]
pub enum ContentError {
    NotBase64,
    NotUtf8,
}

/// A text without its line feeds and carriage returns.
pub open spec fn strip_line_breaks(s: Seq<char>) -> Seq<char> {
    s.filter(|c: char| c != '\n' && c != '\r')
}

/// The bytes a text decodes to under the standard base64 alphabet with
/// padding, `None` where it is not valid base64; a function of the text alone.
pub uninterp spec fn base64_standard_decode(text: Seq<char>) -> Option<Seq<u8>>;

/// `base64::engine::general_purpose::STANDARD.decode`: standard alphabet,
/// padding required. Its result is named `base64_standard_decode` of the
/// text; which texts it accepts is not written out here.
#[verifier::external_body]
fn decode_base64(text: &str) -> (bytes: Option<Vec<u8>>)
    ensures
        bytes matches Some(b) ==> base64_standard_decode(text@) == Some(b@),
        bytes is None ==> base64_standard_decode(text@) is None,
{
    base64::engine::general_purpose::STANDARD.decode(text).ok()
}

/// `String::from_utf8`: the string the bytes encode when they are valid
/// UTF-8, else an error.
#[verifier::external_body]
fn utf8_string(bytes: Vec<u8>) -> (s: Option<String>)
    ensures
        s is Some <==> valid_utf8(bytes@),
        s matches Some(t) ==> t@ == decode_utf8(bytes@),
{
    String::from_utf8(bytes).ok()
}

/// The text of a fetched file from the base64 content field of its listing.
pub open spec fn decoded_content(content: Seq<char>) -> Result<Seq<char>, ContentError> {
    match base64_standard_decode(strip_line_breaks(content)) {
        None => Err(ContentError::NotBase64),
        Some(bytes) => if valid_utf8(bytes) { Ok(decode_utf8(bytes)) } else { Err(ContentError::NotUtf8) },
    }
}

/// Decodes the content field of a file listing: line breaks dropped, then
/// base64, then UTF-8.
pub fn decode_file_content(content: &str) -> (text: Result<String, ContentError>)
    ensures
        match (text, decoded_content(content@)) {
            (Ok(t), Ok(u)) => t@ == u,
            (Err(e), Err(f)) => e == f,
            _ => false,
        },
{
    let cs = chars_of(content);
    let mut clean: Vec<char> = Vec::new();
    let mut i: usize = 0;
    while i < cs.len()
        invariant
            i <= cs@.len(),
            cs@ == content@,
            clean@ == strip_line_breaks(cs@.take(i as int)),
        decreases cs.len() - i,
    {
        let c = cs[i];
        proof {
            assert(cs@.take(i + 1) == cs@.take(i as int).push(c));
            cs@.take(i as int).lemma_filter_push(c, |c: char| c != '\n' && c != '\r');
        }
        if c != '\n' && c != '\r' {
            clean.push(c);
        }
        i += 1;
    }
    assert(cs@.take(cs@.len() as int) == cs@);
    let clean = string_from_chars(&clean);
    match decode_base64(clean.as_str()) {
        None => Err(ContentError::NotBase64),
        Some(bytes) => match utf8_string(bytes) {
            Some(t) => Ok(t),
            None => Err(ContentError::NotUtf8),
        },
    }
}

/// Position of the last occurrence of `c` in `s`, -1 where there is none.
pub open spec fn last_index_of(s: Seq<char>, c: char) -> int
    decreases s.len(),
{
    if s.len() == 0 {
        -1
    } else if s.last() == c {
        s.len() - 1
    } else {
        last_index_of(s.drop_last(), c)
    }
}

proof fn lemma_last_index_of(s: Seq<char>, c: char)
    ensures
        -1 <= last_index_of(s, c) < s.len(),
        last_index_of(s, c) >= 0 ==> s[last_index_of(s, c)] == c,
        forall|j: int| last_index_of(s, c) < j < s.len() ==> s[j] != c,
    decreases s.len(),
{
    if s.len() > 0 && s.last() != c {
        lemma_last_index_of(s.drop_last(), c);
        assert forall|j: int| last_index_of(s, c) < j < s.len() implies s[j] != c by {
            if j < s.len() - 1 {
                assert(s.drop_last()[j] == s[j]);
            }
        }
    }
}

/// An imported name as a path fragment: a leading `./`, then a leading
/// `../`, and a trailing code extension are dropped.
pub open spec fn normalize_import(imp: Seq<char>) -> Seq<char> {
    let a = if starts_with_text(imp, "./"@) { imp.skip(2) } else { imp };
    let b = if starts_with_text(a, "../"@) { a.skip(3) } else { a };
    let idx = last_index_of(b, '.');
    if idx >= 0 && code_extensions().contains(b.skip(idx)) { b.take(idx) } else { b }
}

/// Whether `s` is one of the code extensions.
fn is_code_extension(s: &Vec<char>) -> (b: bool)
    ensures
        b == code_extensions().contains(s@),
{
    let exts = code_extension_list();
    let mut i: usize = 0;
    while i < exts.len()
        invariant
            i <= exts@.len(),
            exts@.map_values(|s: &str| s@) == code_extensions(),
            forall|j: int| 0 <= j < i ==> code_extensions()[j] != s@,
        decreases exts.len() - i,
    {
        let e = chars_of(exts[i]);
        assert(e@ == code_extensions()[i as int]);
        if e.len() == s.len() && seq_starts_with(s, &e) {
            assert(s@.subrange(0, e@.len() as int) =~= s@);
            return true;
        }
        proof {
            if e@ == s@ {
                assert(s@.subrange(0, e@.len() as int) =~= s@);
            }
        }
        i += 1;
    }
    false
}

/// Normalizes an imported name into a path fragment.
pub fn normalize_import_exec(imp: &str) -> (fragment: Vec<char>)
    ensures
        fragment@ == normalize_import(imp@),
{
    proof {
        reveal_strlit("./");
        reveal_strlit("../");
    }
    let v = chars_of(imp);
    let dot_slash = chars_of("./");
    let a = if seq_starts_with(&v, &dot_slash) { slice_chars(&v, 2, v.len()) } else { v };
    let up = chars_of("../");
    let b = if seq_starts_with(&a, &up) { slice_chars(&a, 3, a.len()) } else { a };
    let mut k: usize = b.len();
    while k > 0 && b[k - 1] != '.'
        invariant
            k <= b@.len(),
            forall|j: int| k <= j < b@.len() ==> b@[j] != '.',
        decreases k,
    {
        k -= 1;
    }
    proof {
        lemma_last_index_of(b@, '.');
        if k > 0 {
            assert(last_index_of(b@, '.') == k - 1);
        } else {
            assert(last_index_of(b@, '.') == -1);
        }
    }
    if k > 0 {
        let idx = k - 1;
        let ext = slice_chars(&b, idx, b.len());
        assert(ext@ == b@.skip(idx as int));
        if is_code_extension(&ext) {
            return slice_chars(&b, 0, idx);
        }
    }
    b
}

/// The pattern of an import line: `use`, `import`, `from` or `require` at
/// the start of a line, blanks, an optional quote, then the imported name as
/// the first group.
pub open spec fn import_pattern() -> Seq<char> {
    "(?m)^(?:use|import|from|require)\\s+['\"]?([\\w\\./-]+)"@
}

fn import_pattern_str() -> (p: &'static str)
    ensures
        p@ == import_pattern(),
{
    "(?m)^(?:use|import|from|require)\\s+['\"]?([\\w\\./-]+)"
}

/// For a regular expression and a text: `None` where the expression does not
/// compile, else for each successive non-overlapping match the text of its
/// first group (empty where that group took no part). A function of the two
/// arguments alone.
pub uninterp spec fn pattern_first_groups(pattern: Seq<char>, text: Seq<char>) -> Option<Seq<Seq<char>>>;

/// `regex::Regex::new(pattern)` then `captures_iter(text)`, keeping group 1
/// of each match. The result is named `pattern_first_groups`; the regular
/// expression semantics are not written out here.
#[verifier::external_body]
fn first_group_matches(pattern: &str, text: &str) -> (groups: Option<Vec<String>>)
    ensures
        groups matches Some(g) ==> pattern_first_groups(pattern@, text@) == Some(g@.map_values(|s: String| s@)),
        groups is None ==> pattern_first_groups(pattern@, text@) is None,
{
    match regex::Regex::new(pattern) {
        Ok(re) => Some(re.captures_iter(text).map(|c| c.get(1).map_or("", |m| m.as_str()).to_string()).collect()),
        Err(_) => None,
    }
}

/// The imported names found in a file's text (none where the pattern
/// would not compile).
pub open spec fn captures_of(text: Seq<char>) -> Seq<Seq<char>> {
    match pattern_first_groups(import_pattern(), text) {
        Some(c) => c,
        None => Seq::empty(),
    }
}

/// The imported names found in a file's text.
pub fn imported_names(text: &str) -> (names: Vec<String>)
    ensures
        names@.map_values(|s: String| s@) == captures_of(text@),
{
    match first_group_matches(import_pattern_str(), text) {
        Some(g) => g,
        None => {
            let v: Vec<String> = Vec::new();
            assert(v@.map_values(|s: String| s@) =~= Seq::<Seq<char>>::empty());
            v
        },
    }
}

/// The interner after interning each path in turn.
pub open spec fn intern_all(strings: Seq<Seq<char>>, paths: Seq<Seq<char>>) -> Seq<Seq<char>>
    decreases paths.len(),
{
    if paths.len() == 0 {
        strings
    } else {
        interned(intern_all(strings, paths.drop_last()), paths.last())
    }
}

/// The graph after adding, in turn, the node of each path.
pub open spec fn register_all(g: GraphView, strings: Seq<Seq<char>>, paths: Seq<Seq<char>>) -> GraphView
    decreases paths.len(),
{
    if paths.len() == 0 {
        g
    } else {
        register_all(g, strings, paths.drop_last())
            .with_node(intern_id(intern_all(strings, paths.drop_last()), paths.last()) as NodeId)
    }
}

/// Interning paths in turn keeps the earlier strings, holds every path,
/// and grows by at most one string per path.
pub proof fn lemma_intern_all(strings: Seq<Seq<char>>, paths: Seq<Seq<char>>)
    ensures
        strings.len() <= intern_all(strings, paths).len() <= strings.len() + paths.len(),
        intern_all(strings, paths).take(strings.len() as int) == strings,
        forall|i: int| 0 <= i < paths.len() ==> intern_all(strings, paths).contains(#[trigger] paths[i]),
        strings.no_duplicates() ==> intern_all(strings, paths).no_duplicates(),
    decreases paths.len(),
{
    if paths.len() > 0 {
        let prev = intern_all(strings, paths.drop_last());
        lemma_intern_all(strings, paths.drop_last());
        let cur = intern_all(strings, paths);
        if !prev.contains(paths.last()) {
            assert(cur.take(strings.len() as int) =~= prev.take(strings.len() as int));
            assert(cur[prev.len() as int] == paths.last());
            assert forall|i: int| 0 <= i < paths.len() implies cur.contains(#[trigger] paths[i]) by {
                if i < paths.len() - 1 {
                    assert(paths.drop_last()[i] == paths[i]);
                    let j = choose|j: int| 0 <= j < prev.len() && prev[j] == paths[i];
                    assert(cur[j] == paths[i]);
                }
            }
            if strings.no_duplicates() {
                assert forall|a: int, b: int| 0 <= a < b < cur.len() implies cur[a] != cur[b] by {
                    if b == prev.len() {
                        assert(prev.contains(prev[a]));
                    }
                }
            }
        } else {
            assert forall|i: int| 0 <= i < paths.len() implies cur.contains(#[trigger] paths[i]) by {
                if i < paths.len() - 1 {
                    assert(paths.drop_last()[i] == paths[i]);
                }
            }
        }
    }
}

/// Interns each path and adds its node to the graph.
pub fn register_files(files: &Vec<String>, interner: &mut Interner, graph: &mut Graph)
    requires
        old(interner).wf(),
        old(graph).wf(),
        old(interner)@.len() + files@.len() <= interner_capacity(),
    ensures
        final(interner).wf(),
        final(graph).wf(),
        final(interner)@ == intern_all(old(interner)@, files@.map_values(|s: String| s@)),
        final(graph)@ == register_all(old(graph)@, old(interner)@, files@.map_values(|s: String| s@)),
        forall|i: int| 0 <= i < files@.len() ==> final(interner)@.contains(#[trigger] files@[i]@),
{
    let ghost s0 = interner@;
    let ghost g0 = graph@;
    let ghost paths = files@.map_values(|s: String| s@);
    let mut i: usize = 0;
    while i < files.len()
        invariant
            interner.wf(),
            graph.wf(),
            i <= files@.len(),
            paths == files@.map_values(|s: String| s@),
            s0.len() + files@.len() <= interner_capacity(),
            interner@ == intern_all(s0, paths.take(i as int)),
            graph@ == register_all(g0, s0, paths.take(i as int)),
        decreases files.len() - i,
    {
        proof {
            lemma_intern_all(s0, paths.take(i as int));
            assert(paths.take(i + 1).drop_last() == paths.take(i as int));
            assert(paths.take(i + 1).last() == files@[i as int]@);
        }
        let id = interner.intern(files[i].as_str());
        graph.add_node(id);
        i += 1;
    }
    proof {
        assert(paths.take(files@.len() as int) == paths);
        lemma_intern_all(s0, paths);
        assert forall|i: int| 0 <= i < files@.len() implies interner@.contains(#[trigger] files@[i]@) by {
            assert(paths[i] == files@[i]@);
        }
    }
}

/// The node of an interned path.
pub open spec fn path_id(strings: Seq<Seq<char>>, p: Seq<char>) -> NodeId {
    intern_id(strings, p) as NodeId
}

/// The files an import of `imp` from `src` points at: other files whose
/// path contains the normalized name.
pub open spec fn import_targets(files: Seq<Seq<char>>, src: Seq<char>, imp: Seq<char>) -> Seq<Seq<char>> {
    files.filter(|t: Seq<char>| t != src && contains_text(t, imp))
}

/// The graph after an import edge from `src` to each target in turn.
pub open spec fn link_targets(g: GraphView, strings: Seq<Seq<char>>, src: Seq<char>, targets: Seq<Seq<char>>) -> GraphView
    decreases targets.len(),
{
    if targets.len() == 0 {
        g
    } else {
        link_targets(g, strings, src, targets.drop_last())
            .with_edge(path_id(strings, src), path_id(strings, targets.last()), EdgeType::Imports)
    }
}

/// The graph after linking each imported name of `src` in turn.
pub open spec fn link_captures(g: GraphView, strings: Seq<Seq<char>>, files: Seq<Seq<char>>, src: Seq<char>, caps: Seq<Seq<char>>) -> GraphView
    decreases caps.len(),
{
    if caps.len() == 0 {
        g
    } else {
        link_targets(link_captures(g, strings, files, src, caps.drop_last()), strings, src,
            import_targets(files, src, normalize_import(caps.last())))
    }
}

/// The graph after linking the imports of each fetched file in turn.
pub open spec fn link_files(g: GraphView, strings: Seq<Seq<char>>, files: Seq<Seq<char>>, contents: Seq<(Seq<char>, Seq<char>)>) -> GraphView
    decreases contents.len(),
{
    if contents.len() == 0 {
        g
    } else {
        link_captures(link_files(g, strings, files, contents.drop_last()), strings, files,
            contents.last().0, captures_of(contents.last().1))
    }
}

/// Linking a source to targets keeps the graph well formed, keeps every
/// edge, and adds an import edge from the source to each target.
pub proof fn lemma_link_targets(g: GraphView, strings: Seq<Seq<char>>, src: Seq<char>, targets: Seq<Seq<char>>)
    requires
        g.wf(),
    ensures
        link_targets(g, strings, src, targets).wf(),
        forall|a: NodeId, b: NodeId, k: EdgeType| #[trigger] g.has_edge(a, b, k) ==>
            link_targets(g, strings, src, targets).has_edge(a, b, k),
        forall|t: Seq<char>| #[trigger] targets.contains(t) ==>
            link_targets(g, strings, src, targets).has_edge(path_id(strings, src), path_id(strings, t), EdgeType::Imports),
    decreases targets.len(),
{
    if targets.len() > 0 {
        let prev = targets.drop_last();
        lemma_link_targets(g, strings, src, prev);
        let mid = link_targets(g, strings, src, prev);
        let last = targets.last();
        crate::graph::lemma_with_edge_wf(mid, path_id(strings, src), path_id(strings, last), EdgeType::Imports);
        crate::graph::lemma_add_edge_recorded(mid, path_id(strings, src), path_id(strings, last), EdgeType::Imports);
        let r = link_targets(g, strings, src, targets);
        assert forall|a: NodeId, b: NodeId, k: EdgeType| #[trigger] g.has_edge(a, b, k) implies r.has_edge(a, b, k) by {
            assert(mid.has_edge(a, b, k));
        }
        assert forall|t: Seq<char>| #[trigger] targets.contains(t) implies
            r.has_edge(path_id(strings, src), path_id(strings, t), EdgeType::Imports) by {
            if t != last {
                let i = choose|i: int| 0 <= i < targets.len() && targets[i] == t;
                assert(prev[i] == t);
                assert(prev.contains(t));
                assert(mid.has_edge(path_id(strings, src), path_id(strings, t), EdgeType::Imports));
            }
        }
    }
}

/// Linking the imported names of a source keeps the graph well formed,
/// keeps every edge, and adds an import edge from the source to every other
/// file whose path contains one of the normalized names.
pub proof fn lemma_link_captures(g: GraphView, strings: Seq<Seq<char>>, files: Seq<Seq<char>>, src: Seq<char>, caps: Seq<Seq<char>>)
    requires
        g.wf(),
    ensures
        link_captures(g, strings, files, src, caps).wf(),
        forall|a: NodeId, b: NodeId, k: EdgeType| #[trigger] g.has_edge(a, b, k) ==>
            link_captures(g, strings, files, src, caps).has_edge(a, b, k),
        forall|j: int, t: Seq<char>|
            0 <= j < caps.len() && #[trigger] files.contains(t) && t != src && contains_text(t, normalize_import(#[trigger] caps[j]))
            ==> link_captures(g, strings, files, src, caps).has_edge(path_id(strings, src), path_id(strings, t), EdgeType::Imports),
    decreases caps.len(),
{
    broadcast use vstd::seq_lib::group_filter_ensures;
    if caps.len() > 0 {
        let prev = caps.drop_last();
        lemma_link_captures(g, strings, files, src, prev);
        let mid = link_captures(g, strings, files, src, prev);
        let targets = import_targets(files, src, normalize_import(caps.last()));
        lemma_link_targets(mid, strings, src, targets);
        let r = link_captures(g, strings, files, src, caps);
        assert forall|a: NodeId, b: NodeId, k: EdgeType| #[trigger] g.has_edge(a, b, k) implies r.has_edge(a, b, k) by {
            assert(mid.has_edge(a, b, k));
        }
        assert forall|j: int, t: Seq<char>|
            0 <= j < caps.len() && #[trigger] files.contains(t) && t != src && contains_text(t, normalize_import(#[trigger] caps[j]))
            implies r.has_edge(path_id(strings, src), path_id(strings, t), EdgeType::Imports) by {
            if j < caps.len() - 1 {
                assert(prev[j] == caps[j]);
                assert(mid.has_edge(path_id(strings, src), path_id(strings, t), EdgeType::Imports));
            } else {
                let q = choose|q: int| 0 <= q < files.len() && files[q] == t;
                assert(targets.contains(files[q]));
            }
        }
    }
}

/// Linking fetched files keeps the graph well formed, keeps every edge, and
/// for every fetched file, every normalized name it imports and every other
/// file whose path contains that name, adds an import edge from the fetched
/// file to that file.
pub proof fn lemma_link_files(g: GraphView, strings: Seq<Seq<char>>, files: Seq<Seq<char>>, contents: Seq<(Seq<char>, Seq<char>)>)
    requires
        g.wf(),
    ensures
        link_files(g, strings, files, contents).wf(),
        forall|a: NodeId, b: NodeId, k: EdgeType| #[trigger] g.has_edge(a, b, k) ==>
            link_files(g, strings, files, contents).has_edge(a, b, k),
        forall|c: int, j: int, t: Seq<char>|
            0 <= c < contents.len() && 0 <= j < captures_of(contents[c].1).len()
            && #[trigger] files.contains(t) && t != contents[c].0
            && contains_text(t, normalize_import(#[trigger] captures_of(#[trigger] contents[c].1)[j]))
            ==> link_files(g, strings, files, contents).has_edge(path_id(strings, contents[c].0), path_id(strings, t), EdgeType::Imports),
    decreases contents.len(),
{
    if contents.len() > 0 {
        let prev = contents.drop_last();
        lemma_link_files(g, strings, files, prev);
        let mid = link_files(g, strings, files, prev);
        let last = contents.last();
        lemma_link_captures(mid, strings, files, last.0, captures_of(last.1));
        let r = link_files(g, strings, files, contents);
        assert forall|a: NodeId, b: NodeId, k: EdgeType| #[trigger] g.has_edge(a, b, k) implies r.has_edge(a, b, k) by {
            assert(mid.has_edge(a, b, k));
        }
        assert forall|c: int, j: int, t: Seq<char>|
            0 <= c < contents.len() && 0 <= j < captures_of(contents[c].1).len()
            && #[trigger] files.contains(t) && t != contents[c].0
            && contains_text(t, normalize_import(#[trigger] captures_of(#[trigger] contents[c].1)[j]))
            implies r.has_edge(path_id(strings, contents[c].0), path_id(strings, t), EdgeType::Imports) by {
            if c < contents.len() - 1 {
                assert(prev[c] == contents[c]);
                assert(mid.has_edge(path_id(strings, contents[c].0), path_id(strings, t), EdgeType::Imports));
            } else {
                assert(contents[c] == last);
            }
        }
    }
}

/// Adds an import edge from each fetched file to every other file whose
/// path contains one of its normalized imported names.
pub fn link_imports(files: &Vec<String>, contents: &Vec<(String, String)>, interner: &mut Interner, graph: &mut Graph)
    requires
        old(interner).wf(),
        old(graph).wf(),
        forall|i: int| 0 <= i < files@.len() ==> old(interner)@.contains(#[trigger] files@[i]@),
        forall|i: int| 0 <= i < contents@.len() ==> old(interner)@.contains(#[trigger] contents@[i].0@),
    ensures
        final(interner)@ == old(interner)@,
        final(interner).wf(),
        final(graph).wf(),
        final(graph)@ == link_files(old(graph)@, old(interner)@, files@.map_values(|s: String| s@),
            contents@.map_values(|c: (String, String)| (c.0@, c.1@))),
{
    let ghost strings = interner@;
    let ghost fs = files@.map_values(|s: String| s@);
    let ghost cs = contents@.map_values(|c: (String, String)| (c.0@, c.1@));
    let ghost g0 = graph@;
    let mut c: usize = 0;
    while c < contents.len()
        invariant
            interner.wf(),
            graph.wf(),
            interner@ == strings,
            c <= contents@.len(),
            fs == files@.map_values(|s: String| s@),
            cs == contents@.map_values(|c: (String, String)| (c.0@, c.1@)),
            forall|i: int| 0 <= i < files@.len() ==> strings.contains(#[trigger] files@[i]@),
            forall|i: int| 0 <= i < contents@.len() ==> strings.contains(#[trigger] contents@[i].0@),
            graph@ == link_files(g0, strings, fs, cs.take(c as int)),
        decreases contents.len() - c,
    {
        let path = &contents[c].0;
        let text = &contents[c].1;
        proof {
            assert(cs.take(c + 1).drop_last() == cs.take(c as int));
            assert(cs.take(c + 1).last() == (path@, text@));
        }
        let src_id = interner.intern(path.as_str());
        let names = imported_names(text.as_str());
        let ghost caps = names@.map_values(|s: String| s@);
        let ghost g_file = graph@;
        let mut k: usize = 0;
        while k < names.len()
            invariant
                interner.wf(),
                graph.wf(),
                interner@ == strings,
                k <= names@.len(),
                caps == names@.map_values(|s: String| s@),
                fs == files@.map_values(|s: String| s@),
                src_id == path_id(strings, path@),
                forall|i: int| 0 <= i < files@.len() ==> strings.contains(#[trigger] files@[i]@),
                graph@ == link_captures(g_file, strings, fs, path@, caps.take(k as int)),
            decreases names.len() - k,
        {
            let imp = normalize_import_exec(names[k].as_str());
            proof {
                assert(caps.take(k + 1).drop_last() == caps.take(k as int));
                assert(caps.take(k + 1).last() == names@[k as int]@);
            }
            let ghost g_cap = graph@;
            let ghost pred = |t: Seq<char>| t != path@ && contains_text(t, imp@);
            let mut j: usize = 0;
            while j < files.len()
                invariant
                    interner.wf(),
                    graph.wf(),
                    interner@ == strings,
                    j <= files@.len(),
                    fs == files@.map_values(|s: String| s@),
                    src_id == path_id(strings, path@),
                    forall|i: int| 0 <= i < files@.len() ==> strings.contains(#[trigger] files@[i]@),
                    pred == (|t: Seq<char>| t != path@ && contains_text(t, imp@)),
                    graph@ == link_targets(g_cap, strings, path@, fs.take(j as int).filter(pred)),
                decreases files.len() - j,
            {
                let target = &files[j];
                proof {
                    assert(fs.take(j + 1) == fs.take(j as int).push(target@));
                    fs.take(j as int).lemma_filter_push(target@, pred);
                }
                let different = !crate::text::str_eq(target.as_str(), path.as_str());
                if different && seq_contains(&chars_of(target.as_str()), &imp) {
                    assert(strings.contains(files@[j as int]@));
                    let dst_id = interner.intern(target.as_str());
                    graph.add_edge(src_id, dst_id, EdgeType::Imports);
                    proof {
                        let pre = fs.take(j as int).filter(pred);
                        assert(pre.push(target@).drop_last() == pre);
                    }
                }
                j += 1;
            }
            proof {
                assert(fs.take(files@.len() as int) == fs);
                assert(fs.filter(pred) == import_targets(fs, path@, imp@));
            }
            k += 1;
        }
        proof {
            assert(caps.take(names@.len() as int) == caps);
        }
        c += 1;
    }
    proof {
        assert(cs.take(contents@.len() as int) == cs);
    }
}

/// The front-end form of an edge: every edge is shown as an import.
pub open spec fn edge_payload_of(e: EdgePayload, edge: (NodeId, NodeId, EdgeType)) -> bool {
    e.source == edge.0 && e.target == edge.1 && e.kind@ == "Imports"@
}

/// The graph as the front end receives it: one node per file, labelled with
/// its path, and one edge per graph edge.
pub fn build_payload(files: &Vec<String>, interner: &mut Interner, graph: &Graph) -> (payload: GraphPayload)
    requires
        old(interner).wf(),
        graph.wf(),
        forall|i: int| 0 <= i < files@.len() ==> old(interner)@.contains(#[trigger] files@[i]@),
    ensures
        final(interner)@ == old(interner)@,
        final(interner).wf(),
        payload.nodes@.len() == files@.len(),
        forall|i: int| 0 <= i < files@.len() ==> #[trigger] payload.nodes@[i].id == path_id(old(interner)@, files@[i]@)
            && payload.nodes@[i].label@ == files@[i]@,
        exists|edges: Seq<(NodeId, NodeId, EdgeType)>| {
            &&& edges.no_duplicates()
            &&& forall|a: NodeId, b: NodeId, k: EdgeType| #[trigger] edges.contains((a, b, k)) <==> graph@.has_edge(a, b, k)
            &&& edges.len() == payload.edges@.len()
            &&& forall|i: int| 0 <= i < edges.len() ==> edge_payload_of(#[trigger] payload.edges@[i], edges[i])
        },
{
    let ghost strings = interner@;
    let mut nodes: Vec<NodePayload> = Vec::new();
    let mut i: usize = 0;
    while i < files.len()
        invariant
            interner.wf(),
            interner@ == strings,
            i <= files@.len(),
            forall|j: int| 0 <= j < files@.len() ==> strings.contains(#[trigger] files@[j]@),
            nodes@.len() == i,
            forall|j: int| 0 <= j < i ==> #[trigger] nodes@[j].id == path_id(strings, files@[j]@)
                && nodes@[j].label@ == files@[j]@,
        decreases files.len() - i,
    {
        assert(strings.contains(files@[i as int]@));
        let id = interner.intern(files[i].as_str());
        nodes.push(NodePayload { id, label: files[i].clone() });
        i += 1;
    }
    let all = graph.all_edges();
    let mut edges: Vec<EdgePayload> = Vec::new();
    let mut i: usize = 0;
    while i < all.len()
        invariant
            i <= all@.len(),
            edges@.len() == i,
            forall|j: int| 0 <= j < i ==> edge_payload_of(#[trigger] edges@[j], all@[j]),
        decreases all.len() - i,
    {
        let (source, target, _kind) = all[i];
        let kind = string_from_chars(&chars_of("Imports"));
        edges.push(EdgePayload { source, target, kind });
        i += 1;
    }
    GraphPayload { nodes, edges }
}

/// The selected files are at most 80 eligible paths, and no file outside
/// `src/` and `app/` comes before one inside.
pub proof fn lemma_target_files(tree: Seq<TreeEntry>)
    ensures
        target_files(tree).len() <= max_files(),
        forall|i: int| 0 <= i < target_files(tree).len() ==> eligible_paths(tree).contains(#[trigger] target_files(tree)[i]),
        forall|i: int, j: int| 0 <= i < j < target_files(tree).len() && is_core(#[trigger] target_files(tree)[j])
            ==> is_core(#[trigger] target_files(tree)[i]),
{
    broadcast use vstd::seq_lib::group_filter_ensures;
    let kept = eligible_paths(tree);
    let core = kept.filter(|p: Seq<char>| is_core(p));
    let rest = kept.filter(|p: Seq<char>| !is_core(p));
    let ordered = core + rest;
    let t = target_files(tree);
    assert forall|i: int| 0 <= i < t.len() implies kept.contains(#[trigger] t[i]) by {
        assert(t[i] == ordered[i]);
        if i < core.len() {
            assert(core[i] == ordered[i]);
            assert(core.contains(core[i]));
            kept.lemma_filter_contains_rev(|p: Seq<char>| is_core(p), core[i]);
        } else {
            assert(rest[i - core.len()] == ordered[i]);
            assert(rest.contains(rest[i - core.len()]));
            kept.lemma_filter_contains_rev(|p: Seq<char>| !is_core(p), rest[i - core.len()]);
        }
    }
    assert forall|i: int, j: int| 0 <= i < j < t.len() && is_core(#[trigger] t[j]) implies is_core(#[trigger] t[i]) by {
        assert(t[j] == ordered[j]);
        assert(t[i] == ordered[i]);
        if j >= core.len() {
            assert(!is_core(rest[j - core.len()]));
        }
        assert(is_core(core[i]));
    }
}

/// The authorization header value for a GitHub token: `token <TOKEN>` for a
/// token that is not empty and is not the placeholder (does not contain
/// `your_token`); none otherwise.
pub open spec fn auth_header_of(token: Option<Seq<char>>) -> Option<Seq<char>> {
    match token {
        Some(t) => if t.len() > 0 && !contains_text(t, "your_token"@) { Some("token "@ + t) } else { None },
        None => None,
    }
}

/// The authorization header value for a GitHub token, if one is to be sent.
pub fn auth_header(token: Option<&str>) -> (h: Option<String>)
    ensures
        match (h, auth_header_of(match token { Some(t) => Some(t@), None => None })) {
            (Some(v), Some(w)) => v@ == w,
            (None, None) => true,
            _ => false,
        },
{
    match token {
        Some(t) => {
            let chars = chars_of(t);
            if chars.len() > 0 && !str_contains(t, "your_token") {
                let mut v = chars_of("token ");
                push_str(&mut v, t);
                Some(string_from_chars(&v))
            } else {
                None
            }
        },
        None => None,
    }
}

} // verus!
