//! The decision logic of the source-tree scanner: which directories are
//! skipped, which paths hold block models or blockstates, and how block
//! identifiers are read out of Java source lines. The directory walking
//! and file reading themselves are I/O and live outside this crate; they
//! hand each candidate path or line to these functions as plain values.

use vstd::prelude::*;

use crate::text::find_char;
use crate::text::find_char_spec;
use crate::text::find_str;
use crate::text::find_str_spec;
use crate::text::first_non_ws_spec;
use crate::text::first_ws_spec;
use crate::text::lemma_find_char_spec;
use crate::text::lemma_find_str_spec;
use crate::text::lemma_first_non_ws_spec;
use crate::text::lemma_first_ws_spec;
use crate::text::str_eq;
use crate::text::trim;
use crate::text::trimmed;
use crate::text::ws_char;

verus! {

/// Directories that are skipped at the root of a scanned project, since
/// nobody *should* put source files there: version control, build
/// systems and IDE state.
pub open spec fn blacklist_names() -> Seq<Seq<char>> {
    seq![
        ".git"@,
        ".hg"@,
        "build"@,
        "gradle"@,
        ".gradle"@,
        "out"@,
        "run"@,
        "bin"@,
        ".idea"@,
        "eclipse"@,
    ]
}

/// The list of directory names the scanner ignores at the project root.
pub fn blacklist_dirs() -> (r: Vec<String>)
    ensures
        r.deep_view() == blacklist_names(),
{
    let mut r: Vec<String> = Vec::new();
    r.push(String::from_str(".git"));
    r.push(String::from_str(".hg"));
    r.push(String::from_str("build"));
    r.push(String::from_str("gradle"));
    r.push(String::from_str(".gradle"));
    r.push(String::from_str("out"));
    r.push(String::from_str("run"));
    r.push(String::from_str("bin"));
    r.push(String::from_str(".idea"));
    r.push(String::from_str("eclipse"));
    proof {
        assert(r.deep_view() =~~= blacklist_names());
    }
    r
}

/// Splits a string at every `.`, keeping empty parts, exactly as the
/// standard splitter does.
pub open spec fn split_dots(s: Seq<char>) -> Seq<Seq<char>>
    decreases s.len(),
{
    let f = find_char_spec(s, '.');
    if 0 <= f < s.len() {
        seq![s.subrange(0, f)] + split_dots(s.subrange(f + 1, s.len() as int))
    } else {
        seq![s]
    }
}

/// Split a package descriptor at periods '.' and
/// return it as a Vec so the last part is at the end.
pub fn package_into_vec(package: &str) -> (r: Vec<String>)
    ensures
        r.deep_view() == split_dots(package@),
{
    let mut stack: Vec<String> = Vec::new();
    let n = package.unicode_len();
    let mut rest: &str = package.substring_char(0, n);
    proof {
        assert(rest@ =~= package@);
        assert(stack.deep_view() + split_dots(rest@) =~~= split_dots(package@));
    }
    loop
        invariant_except_break
            stack.deep_view() + split_dots(rest@) =~~= split_dots(package@),
        ensures
            stack.deep_view() =~~= split_dots(package@),
        decreases rest@.len(),
    {
        let m = rest.unicode_len();
        let ghost prev = rest@;
        let ghost prev_stack = stack.deep_view();
        proof {
            lemma_find_char_spec(rest@, '.');
        }
        match find_char(rest, '.') {
            Some(f) => {
                let part = rest.substring_char(0, f);
                stack.push(String::from_str(part));
                rest = rest.substring_char(f + 1, m);
                proof {
                    assert(f == find_char_spec(prev, '.'));
                    assert(stack.deep_view() =~~= prev_stack.push(prev.subrange(0, f as int)));
                    assert(split_dots(prev) =~~= seq![prev.subrange(0, f as int)] + split_dots(
                        rest@,
                    ));
                    assert(stack.deep_view() + split_dots(rest@) =~~= split_dots(package@));
                }
            },
            None => {
                stack.push(String::from_str(rest));
                proof {
                    assert(find_char_spec(prev, '.') == -1);
                    assert(split_dots(prev) =~~= seq![prev]);
                    assert(stack.deep_view() =~~= prev_stack.push(prev));
                    assert(stack.deep_view() =~~= split_dots(package@));
                }
                break ;
            },
        }
    }
    stack
}

/// The path, split into components, ends in `.../models/block/<file>`.
pub open spec fn is_blockmodels_path(p: Seq<Seq<char>>) -> bool {
    &&& p.len() >= 3
    &&& p[p.len() - 2] == "block"@
    &&& p[p.len() - 3] == "models"@
}

/// The path, split into components, ends in `.../blockstates/<file>`.
pub open spec fn is_blockstates_path(p: Seq<Seq<char>>) -> bool {
    &&& p.len() >= 2
    &&& p[p.len() - 2] == "blockstates"@
}

/// Whether a path, given as its components, names a block-model file:
/// its directory is `block` inside a `models` directory.
pub fn filter_blockmodels(path: &Vec<String>) -> (r: bool)
    ensures
        r == is_blockmodels_path(path.deep_view()),
{
    match filter_blockmodels_impl(path) {
        Some(b) => b,
        None => false,
    }
}

/// The layered check behind `filter_blockmodels`: nothing to answer
/// without a parent or, once the parent is `block`, a grandparent.
pub fn filter_blockmodels_impl(path: &Vec<String>) -> (r: Option<bool>)
    ensures
        match r {
            Some(b) => b == is_blockmodels_path(path.deep_view()),
            None => path.deep_view().len() < 2 || (path.deep_view()[path.deep_view().len() - 2]
                == "block"@ && path.deep_view().len() < 3),
        },
{
    let n = path.len();
    if n < 2 {
        return None;
    }
    let parent_is_block = str_eq(path[n - 2].as_str(), "block");
    proof {
        assert(path.deep_view()[n - 2] == path@[n - 2 as int]@);
    }
    if !parent_is_block {
        return Some(false);
    }
    if n < 3 {
        return None;
    }
    proof {
        assert(path.deep_view()[n - 3] == path@[n - 3 as int]@);
    }
    Some(str_eq(path[n - 3].as_str(), "models"))
}

/// Whether a path, given as its components, names a blockstate file: its
/// directory is `blockstates`.
pub fn filter_blockstates(path: &Vec<String>) -> (r: bool)
    ensures
        r == is_blockstates_path(path.deep_view()),
{
    match filter_blockstates_impl(path) {
        Some(b) => b,
        None => false,
    }
}

/// The layered check behind `filter_blockstates`.
pub fn filter_blockstates_impl(path: &Vec<String>) -> (r: Option<bool>)
    ensures
        match r {
            Some(b) => b == is_blockstates_path(path.deep_view()),
            None => path.deep_view().len() < 2,
        },
{
    let n = path.len();
    if n < 2 {
        return None;
    }
    proof {
        assert(path.deep_view()[n - 2] == path@[n - 2 as int]@);
    }
    Some(str_eq(path[n - 2].as_str(), "blockstates"))
}

/// Everything the scanner learns about one Java source file: where it
/// sits, its package and class name, the block identifiers it declares,
/// and where the generated shape class belongs.
pub struct BlockInfo {
    /// The scanned source file, as a display path.
    pub path: String,
    /// The package of the generated class.
    pub package: String,
    /// The class name of the scanned file.
    pub classname: String,
    /// The block identifiers declared in the file.
    pub ids: Vec<String>,
    /// The file the generated class is written to, as a display path.
    pub target: String,
    /// The target file did not exist yet.
    pub target_new: bool,
    /// The target sits next to the scanned file rather than in a
    /// `blockshape` package of its own.
    pub target_next_to: bool,
}

/// The package name a Java line declares: the text between the `package`
/// keyword and the `;`, trimmed; nothing when either is missing or the
/// `;` comes first.
pub open spec fn package_extract(line: Seq<char>) -> Option<Seq<char>> {
    let f = find_str_spec(line, "package"@);
    if f < 0 {
        None
    } else {
        let start = f + "package"@.len();
        let e = find_char_spec(line, ';');
        if e < 0 {
            None
        } else if e < start {
            None
        } else {
            Some(trimmed(line.subrange(start, e)))
        }
    }
}

/// Reads a `package` declaration out of one source line; on success the
/// declared name replaces `out`, otherwise `out` is left alone.
pub fn java_package_find(line: &str, out: &mut Option<String>) -> (r: Option<()>)
    ensures
        match package_extract(line@) {
            Some(p) => r == Some(()) && final(out).is_some() && final(out).unwrap()@ == p,
            None => r.is_none() && *final(out) == *old(out),
        },
{
    proof {
        lemma_find_str_spec(line@, "package"@);
        lemma_find_char_spec(line@, ';');
    }
    let n = line.unicode_len();
    let marker = "package";
    let f = match find_str(line, marker) {
        Some(i) => i,
        None => {
            return None;
        },
    };
    let start = f + marker.unicode_len();
    let e = match find_char(line, ';') {
        Some(i) => i,
        None => {
            return None;
        },
    };
    if e < start {
        return None;
    }
    let sub = line.substring_char(start, e);
    let t = trim(sub);
    *out = Some(String::from_str(t));
    Some(())
}

/// The class name a Java line declares: the first blank-delimited token
/// after the `class` keyword and its following whitespace.
pub open spec fn classname_extract(line: Seq<char>) -> Option<Seq<char>> {
    let f = find_str_spec(line, "class"@);
    if f < 0 {
        None
    } else {
        let a = f + "class"@.len();
        let t1 = line.subrange(a, line.len() as int);
        let nw = first_non_ws_spec(t1);
        if nw < 0 {
            None
        } else {
            let start = a + nw;
            let t2 = line.subrange(start, line.len() as int);
            let end = start + first_ws_spec(t2);
            Some(trimmed(line.subrange(start, end)))
        }
    }
}

/// The index of the first character that is not whitespace.
pub fn first_non_ws(line: &str) -> (r: Option<usize>)
    ensures
        match r {
            Some(i) => i == first_non_ws_spec(line@),
            None => first_non_ws_spec(line@) == -1,
        },
{
    let n = line.unicode_len();
    let mut i: usize = 0;
    while i < n
        invariant
            n == line@.len(),
            i <= n,
            forall|j: int| 0 <= j < i ==> is_ws_char_at(line@, j),
        decreases n - i,
    {
        if !ws_char(line.get_char(i)) {
            proof {
                lemma_first_non_ws_spec(line@);
                let sp = first_non_ws_spec(line@);
                if sp == -1 {
                    assert(crate::text::is_ws_char(line@[i as int]));
                } else if sp < i {
                    assert(is_ws_char_at(line@, sp));
                } else if sp > i {
                    assert(crate::text::is_ws_char(line@[i as int]));
                }
            }
            return Some(i);
        }
        i = i + 1;
    }
    proof {
        lemma_first_non_ws_spec(line@);
        let sp = first_non_ws_spec(line@);
        if sp != -1 {
            assert(is_ws_char_at(line@, sp));
        }
    }
    None
}

/// Whether the character at `j` is whitespace; a trigger-friendly way to
/// say so of every position in a range.
pub open spec fn is_ws_char_at(s: Seq<char>, j: int) -> bool {
    crate::text::is_ws_char(s[j])
}

/// The index of the first whitespace character, or the length of the
/// line when it has none.
pub fn first_ws(line: &str) -> (r: Option<usize>)
    ensures
        r.is_some(),
        r.unwrap() == first_ws_spec(line@),
{
    let n = line.unicode_len();
    let mut i: usize = 0;
    while i < n
        invariant
            n == line@.len(),
            i <= n,
            forall|j: int| 0 <= j < i ==> !is_ws_char_at(line@, j),
        decreases n - i,
    {
        if ws_char(line.get_char(i)) {
            proof {
                lemma_first_ws_spec(line@);
                let sp = first_ws_spec(line@);
                if sp < i {
                    assert(!is_ws_char_at(line@, sp));
                } else if sp > i {
                    assert(!crate::text::is_ws_char(line@[i as int]));
                }
            }
            return Some(i);
        }
        i = i + 1;
    }
    proof {
        lemma_first_ws_spec(line@);
        let sp = first_ws_spec(line@);
        if sp < n {
            assert(!is_ws_char_at(line@, sp));
        }
    }
    Some(n)
}

/// Reads the class name out of one source line; on success it replaces
/// `out`, otherwise `out` is left alone.
pub fn java_classname_find(line: &str, out: &mut Option<String>) -> (r: Option<()>)
    ensures
        match classname_extract(line@) {
            Some(p) => r == Some(()) && final(out).is_some() && final(out).unwrap()@ == p,
            None => r.is_none() && *final(out) == *old(out),
        },
{
    proof {
        lemma_find_str_spec(line@, "class"@);
    }
    let n = line.unicode_len();
    let marker = "class";
    let f = match find_str(line, marker) {
        Some(i) => i,
        None => {
            return None;
        },
    };
    let a = f + marker.unicode_len();
    let t1 = line.substring_char(a, n);
    let nw = match first_non_ws(t1) {
        Some(i) => i,
        None => {
            return None;
        },
    };
    proof {
        lemma_first_non_ws_spec(t1@);
    }
    let start = a + nw;
    let t2 = line.substring_char(start, n);
    let e = match first_ws(t2) {
        Some(i) => i,
        None => {
            return None;
        },
    };
    proof {
        lemma_first_ws_spec(t2@);
    }
    let end = start + e;
    let sub = line.substring_char(start, end);
    let t = trim(sub);
    *out = Some(String::from_str(t));
    Some(())
}

/// The first pair of double quotes in `s`: the index of the opening
/// quote and of the closing quote after it; nothing when the opening
/// quote is missing or is the last character, or the closing one is
/// missing.
pub open spec fn dquots_spec(s: Seq<char>) -> Option<(int, int)> {
    let a = find_char_spec(s, '"');
    if a < 0 {
        None
    } else if a >= s.len() - 1 {
        None
    } else {
        let b = find_char_spec(s.subrange(a + 1, s.len() as int), '"');
        if b < 0 {
            None
        } else {
            Some((a, b + a + 1))
        }
    }
}

/// Finds the first double-quoted region of `s`.
pub fn find_dquots(s: &str) -> (r: Option<(usize, usize)>)
    ensures
        match r {
            Some(p) => dquots_spec(s@) == Some((p.0 as int, p.1 as int)) && p.0 < p.1 < s@.len(),
            None => dquots_spec(s@) is None,
        },
{
    let n = s.unicode_len();
    proof {
        lemma_find_char_spec(s@, '"');
    }
    let start = match find_char(s, '"') {
        Some(i) => i,
        None => {
            return None;
        },
    };
    if start >= n - 1 {
        return None;
    }
    let tail = s.substring_char(start + 1, n);
    proof {
        lemma_find_char_spec(tail@, '"');
    }
    let end = match find_char(tail, '"') {
        Some(i) => i,
        None => {
            return None;
        },
    };
    Some((start, end + start + 1))
}

/// The non-empty double-quoted pieces of `s`, in order: the reader takes
/// the first quoted region, keeps its contents when non-empty, and goes
/// on after the closing quote.
pub open spec fn quoted_ids(s: Seq<char>) -> Seq<Seq<char>>
    decreases s.len(),
{
    match dquots_spec(s) {
        None => Seq::empty(),
        Some(p) => {
            let id = s.subrange(p.0 + 1, p.1);
            let first = if id.len() > 0 {
                seq![id]
            } else {
                Seq::<Seq<char>>::empty()
            };
            if 0 <= p.1 && p.1 + 1 < s.len() {
                first + quoted_ids(s.subrange(p.1 + 1, s.len() as int))
            } else {
                first
            }
        },
    }
}

/// Reads every non-empty double-quoted identifier out of `s`.
pub fn read_quoted_ids(line: &str) -> (r: Option<Vec<String>>)
    ensures
        r.is_some(),
        r.unwrap().deep_view() == quoted_ids(line@),
{
    let mut ids: Vec<String> = Vec::new();
    let n = line.unicode_len();
    let mut rest: &str = line.substring_char(0, n);
    proof {
        assert(rest@ =~= line@);
        assert(ids.deep_view() + quoted_ids(rest@) =~~= quoted_ids(line@));
    }
    loop
        invariant_except_break
            ids.deep_view() + quoted_ids(rest@) =~~= quoted_ids(line@),
        ensures
            ids.deep_view() =~~= quoted_ids(line@),
        decreases rest@.len(),
    {
        let m = rest.unicode_len();
        let ghost prev = rest@;
        let ghost prev_ids = ids.deep_view();
        match find_dquots(rest) {
            Some(p) => {
                let (a, b) = p;
                let id = rest.substring_char(a + 1, b);
                let ghost id_v = prev.subrange(a + 1 as int, b as int);
                if id.unicode_len() > 0 {
                    ids.push(String::from_str(id));
                    proof {
                        assert(ids.deep_view() =~~= prev_ids.push(id_v));
                    }
                }
                if b + 1 >= m {
                    proof {
                        assert(quoted_ids(prev) =~~= (if id_v.len() > 0 {
                            seq![id_v]
                        } else {
                            Seq::<Seq<char>>::empty()
                        }));
                        assert(ids.deep_view() =~~= quoted_ids(line@));
                    }
                    break ;
                }
                rest = rest.substring_char(b + 1, m);
                proof {
                    assert(quoted_ids(prev) =~~= (if id_v.len() > 0 {
                        seq![id_v]
                    } else {
                        Seq::<Seq<char>>::empty()
                    }) + quoted_ids(rest@));
                    assert(ids.deep_view() + quoted_ids(rest@) =~~= quoted_ids(line@));
                }
            },
            None => {
                proof {
                    assert(quoted_ids(prev) =~~= Seq::<Seq<char>>::empty());
                    assert(ids.deep_view() =~~= quoted_ids(line@));
                }
                break ;
            },
        }
    }
    Some(ids)
}

/// The identifiers a `VSC! BLOCK_ID` comment line declares: everything
/// quoted after the marker.
pub open spec fn comment_ids_extract(line: Seq<char>) -> Option<Seq<Seq<char>>> {
    let f = find_str_spec(line, "VSC! BLOCK_ID"@);
    if f < 0 {
        None
    } else {
        let beg = f + "VSC! BLOCK_ID"@.len();
        if beg >= line.len() {
            None
        } else {
            Some(quoted_ids(line.subrange(beg, line.len() as int)))
        }
    }
}

/// Reads the identifiers out of a `VSC! BLOCK_ID` comment line.
pub fn java_comment_ids(line: &str) -> (r: Option<Vec<String>>)
    ensures
        match r {
            Some(v) => comment_ids_extract(line@) == Some(v.deep_view()),
            None => comment_ids_extract(line@) is None,
        },
{
    proof {
        lemma_find_str_spec(line@, "VSC! BLOCK_ID"@);
    }
    let n = line.unicode_len();
    let marker = "VSC! BLOCK_ID";
    let f = match find_str(line, marker) {
        Some(i) => i,
        None => {
            return None;
        },
    };
    let beg = f + marker.unicode_len();
    if beg >= n {
        return None;
    }
    read_quoted_ids(line.substring_char(beg, n))
}

/// The identifiers a `VSC_BLOCK_IDS` field line declares: everything
/// quoted between its braces, which must hold something.
pub open spec fn field_ids_extract(line: Seq<char>) -> Option<Seq<Seq<char>>> {
    if find_str_spec(line, "VSC_BLOCK_IDS"@) < 0 {
        None
    } else {
        let beg = find_char_spec(line, '{');
        let e = find_char_spec(line, '}');
        if beg < 0 || e < 0 {
            None
        } else if e < beg || e - beg <= 1 {
            None
        } else {
            Some(quoted_ids(line.subrange(beg, e)))
        }
    }
}

/// Reads the identifiers out of a `VSC_BLOCK_IDS` field line.
pub fn java_field_ids(line: &str) -> (r: Option<Vec<String>>)
    ensures
        match r {
            Some(v) => field_ids_extract(line@) == Some(v.deep_view()),
            None => field_ids_extract(line@) is None,
        },
{
    proof {
        lemma_find_str_spec(line@, "VSC_BLOCK_IDS"@);
        lemma_find_char_spec(line@, '{');
        lemma_find_char_spec(line@, '}');
    }
    if find_str(line, "VSC_BLOCK_IDS").is_none() {
        return None;
    }
    let beg = match find_char(line, '{') {
        Some(i) => i,
        None => {
            return None;
        },
    };
    let end = match find_char(line, '}') {
        Some(i) => i,
        None => {
            return None;
        },
    };
    if end < beg || end - beg <= 1 {
        return None;
    }
    read_quoted_ids(line.substring_char(beg, end))
}

/// The identifier a single `VSC_BLOCK_ID` field line declares: everything
/// quoted after its `=`; a `VSC_BLOCK_IDS` line is left to the plural
/// reader.
pub open spec fn field_id_extract(line: Seq<char>) -> Option<Seq<Seq<char>>> {
    if find_str_spec(line, "VSC_BLOCK_ID"@) < 0 || find_str_spec(line, "VSC_BLOCK_IDS"@) >= 0 {
        None
    } else {
        let beg = find_char_spec(line, '=');
        if beg < 0 {
            None
        } else {
            Some(quoted_ids(line.subrange(beg, line.len() as int)))
        }
    }
}

/// Reads the identifier out of a `VSC_BLOCK_ID` field line.
pub fn java_field_id(line: &str) -> (r: Option<Vec<String>>)
    ensures
        match r {
            Some(v) => field_id_extract(line@) == Some(v.deep_view()),
            None => field_id_extract(line@) is None,
        },
{
    proof {
        lemma_find_str_spec(line@, "VSC_BLOCK_ID"@);
        lemma_find_str_spec(line@, "VSC_BLOCK_IDS"@);
        lemma_find_char_spec(line@, '=');
    }
    let n = line.unicode_len();
    if find_str(line, "VSC_BLOCK_ID").is_none() || find_str(line, "VSC_BLOCK_IDS").is_some() {
        return None;
    }
    let beg = match find_char(line, '=') {
        Some(i) => i,
        None => {
            return None;
        },
    };
    read_quoted_ids(line.substring_char(beg, n))
}

/// Joins path parts from the last to the first with dots, folding them
/// into an accumulator and skipping the separator while the accumulator
/// is still empty.
pub open spec fn join_rev(parts: Seq<Seq<char>>, acc: Seq<char>) -> Seq<char>
    decreases parts.len(),
{
    if parts.len() == 0 {
        acc
    } else {
        let acc2 = if acc.len() == 0 {
            acc + parts.last()
        } else {
            acc + seq!['.'] + parts.last()
        };
        join_rev(parts.drop_last(), acc2)
    }
}

/// The package the generated class is placed in when it does not sit next
/// to its source: the package's last `block...` part gives way to
/// `blockshape`, and the parts are folded back together from the end.
pub open spec fn blockshape_package_spec(package: Seq<char>) -> Seq<char> {
    let parts0 = split_dots(package);
    let parts1 = if parts0.len() > 0 && crate::text::matches_at(parts0.last(), "block"@, 0) {
        parts0.drop_last()
    } else {
        parts0
    };
    join_rev(parts1.push("blockshape"@), Seq::empty())
}

/// Rewrites a package name for the `blockshape` package.
pub fn blockshape_package(package: &str) -> (r: String)
    ensures
        r@ == blockshape_package_spec(package@),
{
    let mut parts = package_into_vec(package);
    let np = parts.len();
    proof {
        assert(np >= 1) by {
            assert(split_dots(package@).len() >= 1);
        }
        assert(parts.deep_view()[np - 1] == parts@[np - 1 as int]@);
    }
    if crate::text::starts_with(parts[np - 1].as_str(), "block") {
        let ghost before = parts.deep_view();
        parts.pop();
        proof {
            assert(parts.deep_view() =~~= before.drop_last());
        }
    }
    let ghost kept = parts.deep_view();
    parts.push(String::from_str("blockshape"));
    proof {
        assert(parts.deep_view() =~~= kept.push("blockshape"@));
    }
    let mut acc = String::new();
    let mut i: usize = parts.len();
    proof {
        assert(parts.deep_view().subrange(0, parts.deep_view().len() as int) =~~= parts.deep_view());
    }
    while i > 0
        invariant
            i <= parts@.len(),
            join_rev(parts.deep_view(), Seq::empty()) == join_rev(
                parts.deep_view().subrange(0, i as int),
                acc@,
            ),
        decreases i,
    {
        let ghost pre = parts.deep_view().subrange(0, i as int);
        let ghost acc0 = acc@;
        i = i - 1;
        if acc.as_str().is_empty() {
            acc.append(parts[i].as_str());
        } else {
            acc.append(".");
            acc.append(parts[i].as_str());
        }
        proof {
            assert(pre.drop_last() =~~= parts.deep_view().subrange(0, i as int));
            assert(pre.last() == parts@[i as int]@);
            if acc0.len() == 0 {
                assert(acc@ =~= acc0 + pre.last());
            } else {
                reveal_strlit(".");
                assert("."@ =~= seq!['.']);
                assert(acc@ =~= acc0 + seq!['.'] + pre.last());
            }
        }
    }
    proof {
        assert(parts.deep_view().subrange(0, parts.deep_view().len() as int) =~~= parts.deep_view());
        assert(parts.deep_view().subrange(0, 0) =~~= Seq::<Seq<char>>::empty());
    }
    acc
}

} // verus!
