//! Paths as text: their components and file names as std reads them,
//! containment, index keys and the source-file filter.
use vstd::prelude::*;
use std::path::Path;
use crate::names::views;

verus! {

/// `pre` is a prefix of `s`.
pub open spec fn has_prefix(s: Seq<char>, pre: Seq<char>) -> bool {
    pre.len() <= s.len() && s.subrange(0, pre.len() as int) == pre
}

/// The components of `p` as `Path::components` gives them, each as text:
/// the root as `/`, with repeated separators, trailing separators and
/// inner `.` components left out.
pub uninterp spec fn components_of(p: Seq<char>) -> Seq<Seq<char>>;

/// The final component of `p` where it is a file or directory name, as
/// `Path::file_name` gives it.
pub uninterp spec fn file_name_of(p: Seq<char>) -> Option<Seq<char>>;

/// The directory part of `p`, as `Path::parent` gives it.
pub uninterp spec fn parent_of(p: Seq<char>) -> Option<Seq<char>>;

/// `f` read from `root`, as `Path::join` gives it.
pub uninterp spec fn joined(root: Seq<char>, f: Seq<char>) -> Seq<char>;

/// The components of `root` begin those of `p`.
pub open spec fn path_within(root: Seq<char>, p: Seq<char>) -> bool {
    let r = components_of(root);
    let c = components_of(p);
    r.len() <= c.len() && c.subrange(0, r.len() as int) == r
}

/// The key under which a directory is indexed: the directory with one
/// trailing separator, so that a textual prefix of keys is a containment of
/// directories.
pub open spec fn dir_key(d: Seq<char>) -> Seq<char> {
    if d.len() > 0 && d.last() == '/' {
        d
    } else {
        d.push('/')
    }
}

/// Position of the last `c` in `s`, if any.
pub open spec fn last_index_of(s: Seq<char>, c: char) -> Option<int>
    decreases s.len(),
{
    if s.len() == 0 {
        None
    } else if s.last() == c {
        Some(s.len() - 1)
    } else {
        last_index_of(s.drop_last(), c)
    }
}

/// The directory that holds the file at `m`; empty where `m` has none.
pub open spec fn parent_dir(m: Seq<char>) -> Seq<char> {
    match parent_of(m) {
        Some(d) => d,
        None => Seq::empty(),
    }
}

pub open spec fn lower_char(c: char) -> char {
    if 'A' <= c && c <= 'Z' { ((c as u8) + 32) as u8 as char } else { c }
}

pub open spec fn lower_seq(s: Seq<char>) -> Seq<char> {
    s.map_values(|c: char| lower_char(c))
}

/// The extension of a file name: the text after its last dot, where that
/// dot is not the name's first character.
pub open spec fn name_extension(name: Seq<char>) -> Option<Seq<char>> {
    match last_index_of(name, '.') {
        Some(d) => if d > 0 { Some(name.subrange(d + 1, name.len() as int)) } else { None },
        None => None,
    }
}

/// The extension of the file named by `p`.
pub open spec fn extension_of(p: Seq<char>) -> Option<Seq<char>> {
    match file_name_of(p) {
        Some(n) => name_extension(n),
        None => None,
    }
}

/// Extensions of the files that can change what a package builds.
pub open spec fn is_source_extension(e: Seq<char>) -> bool {
    let l = lower_seq(e);
    l == "rs"@ || l == "c"@ || l == "cpp"@ || l == "h"@ || l == "hpp"@ || l == "cc"@
        || l == "cxx"@ || l == "toml"@
}

pub open spec fn considered(p: Seq<char>) -> bool {
    match extension_of(p) {
        Some(e) => is_source_extension(e),
        None => false,
    }
}

/// Relies on std's Path::components, each component read back as text.
#[verifier::external_body]
fn path_components(p: &str) -> (r: Vec<String>)
    ensures
        views(r@) == components_of(p@),
{
    Path::new(p).components().map(|c| c.as_os_str().to_string_lossy().into_owned()).collect()
}

/// Relies on std's Path::file_name, read back as text.
#[verifier::external_body]
fn file_name(p: &str) -> (r: Option<String>)
    ensures
        match r {
            Some(n) => file_name_of(p@) == Some(n@),
            None => file_name_of(p@) is None,
        },
{
    Path::new(p).file_name().map(|n| n.to_string_lossy().into_owned())
}

/// Relies on std's Path::parent, read back as text.
#[verifier::external_body]
fn parent(p: &str) -> (r: Option<String>)
    ensures
        match r {
            Some(d) => parent_of(p@) == Some(d@),
            None => parent_of(p@) is None,
        },
{
    Path::new(p).parent().map(|d| d.to_string_lossy().into_owned())
}

/// Relies on std's Path::join, read back as text.
#[verifier::external_body]
pub(crate) fn join_path(root: &str, f: &str) -> (r: String)
    ensures
        r@ == joined(root@, f@),
{
    Path::new(root).join(f).to_string_lossy().into_owned()
}

/// Whether `path` is present and lies at or below `root`, comparing whole
/// components.
pub fn check_path(root: &str, path: Option<&str>) -> (r: bool)
    ensures
        r == match path {
            Some(p) => path_within(root@, p@),
            None => false,
        },
{
    match path {
        None => false,
        Some(p) => {
            let rc = path_components(root);
            let pc = path_components(p);
            assert(views(rc@).len() == rc@.len() && views(pc@).len() == pc@.len());
            if rc.len() > pc.len() {
                assert(components_of(root@).len() > components_of(p@).len());
                assert(!path_within(root@, p@));
                return false;
            }
            let mut i: usize = 0;
            while i < rc.len()
                invariant
                    path == Some(p),
                    views(rc@) == components_of(root@),
                    views(pc@) == components_of(p@),
                    rc@.len() <= pc@.len(),
                    i <= rc@.len(),
                    forall|j: int| 0 <= j < i ==> rc@[j]@ == pc@[j]@,
                decreases rc@.len() - i,
            {
                if !(rc[i] == pc[i]) {
                    assert(views(rc@)[i as int] == rc@[i as int]@);
                    assert(views(pc@).subrange(0, rc@.len() as int)[i as int] != views(rc@)[i as int]);
                    return false;
                }
                i = i + 1;
            }
            assert(views(pc@).subrange(0, rc@.len() as int) =~= views(rc@));
            true
        },
    }
}

/// Position of the last `c` in `s`.
fn find_last(s: &str, c: char) -> (r: Option<usize>)
    ensures
        match r {
            Some(i) => i < s@.len() && last_index_of(s@, c) == Some(i as int),
            None => last_index_of(s@, c) is None,
        },
{
    let n = s.unicode_len();
    let mut i: usize = n;
    assert(s@.subrange(0, n as int) =~= s@);
    while i > 0
        invariant
            n == s@.len(),
            i <= n,
            last_index_of(s@, c) == last_index_of(s@.subrange(0, i as int), c),
        decreases i,
    {
        if s.get_char(i - 1) == c {
            return Some(i - 1);
        }
        assert(s@.subrange(0, i as int).drop_last() =~= s@.subrange(0, i - 1));
        i = i - 1;
    }
    None
}

/// The directory that holds the file at `manifest`.
pub fn parent_directory(manifest: &str) -> (r: String)
    ensures
        r@ == parent_dir(manifest@),
{
    match parent(manifest) {
        Some(d) => d,
        None => String::new(),
    }
}

/// The index key of directory `d`.
pub fn directory_key(d: &str) -> (r: String)
    ensures
        r@ == dir_key(d@),
{
    let n = d.unicode_len();
    let mut r = d.to_owned();
    if n > 0 && d.get_char(n - 1) == '/' {
        r
    } else {
        r.append("/");
        proof { reveal_strlit("/"); }
        assert(r@ =~= d@.push('/'));
        r
    }
}

/// Whether the characters `s[from..to]`, lowered, spell `lit`.
fn lowered_equals(s: &str, from: usize, to: usize, lit: &str) -> (r: bool)
    requires
        from <= to <= s@.len(),
    ensures
        r == (lower_seq(s@.subrange(from as int, to as int)) == lit@),
{
    let ghost sub = s@.subrange(from as int, to as int);
    let m = lit.unicode_len();
    if to - from != m {
        assert(lower_seq(sub).len() != lit@.len());
        return false;
    }
    let mut i: usize = 0;
    while i < m
        invariant
            from <= to <= s@.len(),
            m == lit@.len(),
            to - from == m,
            sub == s@.subrange(from as int, to as int),
            i <= m,
            forall|j: int| 0 <= j < i ==> lower_char(sub[j]) == lit@[j],
        decreases m - i,
    {
        let c = s.get_char(from + i);
        let l = if 'A' <= c && c <= 'Z' { ((c as u8) + 32) as u8 as char } else { c };
        assert(l == lower_char(sub[i as int]));
        if l != lit.get_char(i) {
            assert(lower_seq(sub)[i as int] != lit@[i as int]);
            return false;
        }
        i = i + 1;
    }
    assert(lower_seq(sub) =~= lit@);
    true
}

/// Whether the file that `path` names has one of the source extensions,
/// ignoring ASCII case.
pub fn is_considered(path: &str) -> (r: bool)
    ensures
        r == considered(path@),
{
    let name = match file_name(path) {
        Some(n) => n,
        None => return false,
    };
    let n = name.unicode_len();
    match find_last(name.as_str(), '.') {
        None => false,
        Some(d) => {
            if d == 0 {
                return false;
            }
            let from = d + 1;
            let s = name.as_str();
            lowered_equals(s, from, n, "rs") || lowered_equals(s, from, n, "c")
                || lowered_equals(s, from, n, "cpp") || lowered_equals(s, from, n, "h")
                || lowered_equals(s, from, n, "hpp") || lowered_equals(s, from, n, "cc")
                || lowered_equals(s, from, n, "cxx") || lowered_equals(s, from, n, "toml")
        },
    }
}

} // verus!
