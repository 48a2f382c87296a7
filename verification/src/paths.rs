//! Path text: normalisation, the home directory, and the directory, file and
//! extension parts of a path.
//!
//! Paths use `/` as separator; a backslash is read as a separator too.

use vstd::prelude::*;
use crate::io::{path_file_name, path_file_name_text, path_parent, path_parent_text};
use crate::strs::{
    join_spec, join_strings, last_at, no_char, owned, push_str, replace_char, replace_str,
    rfind_char, split_spec, split_str, starts_with_spec, starts_with_str, str_eq, to_chars,
    from_chars, sub_chars, views, copy_string,
};

verus! {

broadcast use vstd::string::group_string_axioms;

pub open spec fn dot() -> Seq<char> {
    seq!['.']
}

pub open spec fn dotdot() -> Seq<char> {
    seq!['.', '.']
}

/// One component applied to the parts gathered so far: empty and `.` vanish,
/// `..` removes the last part (or stays, at the start of a relative path).
pub open spec fn norm_step(parts: Seq<Seq<char>>, c: Seq<char>, absolute: bool) -> Seq<Seq<char>> {
    if c.len() == 0 || c == dot() {
        parts
    } else if c == dotdot() {
        if parts.len() > 0 && parts.last() != dotdot() {
            parts.drop_last()
        } else if !absolute {
            parts.push(dotdot())
        } else {
            parts
        }
    } else {
        parts.push(c)
    }
}

pub open spec fn norm_parts(cs: Seq<Seq<char>>, absolute: bool) -> Seq<Seq<char>>
    decreases cs.len(),
{
    if cs.len() == 0 {
        seq![]
    } else {
        norm_step(norm_parts(cs.drop_last(), absolute), cs.last(), absolute)
    }
}

/// The normal form of a path: separators unified, `.` and empty components
/// dropped, `..` resolved where it can be, `.` for an empty result.
pub open spec fn normalize_spec(p: Seq<char>) -> Seq<char> {
    let q = replace_char(p, '\\', seq!['/']);
    let absolute = q.len() > 0 && q[0] == '/';
    let body = join_spec(norm_parts(split_spec(q, '/'), absolute), seq!['/']);
    let res = if absolute {
        seq!['/'] + body
    } else {
        body
    };
    if res.len() == 0 {
        dot()
    } else {
        res
    }
}

/// Whether a string is empty.
fn empty_text(s: &str) -> (r: bool)
    ensures
        r == (s@.len() == 0),
{
    to_chars(s).len() == 0
}

fn is_dot(s: &String) -> (r: bool)
    ensures
        r == (s@ == dot()),
{
    proof {
        reveal_strlit(".");
    }
    let d = ".";
    assert(d@ =~= dot());
    str_eq(s.as_str(), d)
}

fn is_dotdot(s: &String) -> (r: bool)
    ensures
        r == (s@ == dotdot()),
{
    proof {
        reveal_strlit("..");
    }
    let d = "..";
    assert(d@ =~= dotdot());
    str_eq(s.as_str(), d)
}

/// The normal form of a path.
pub fn normalize_path(p: &str) -> (r: String)
    ensures
        r@ == normalize_spec(p@),
{
    proof {
        reveal_strlit("/");
    }
    let slash = "/";
    assert(slash@ =~= seq!['/']);
    let q = replace_str(p, '\\', slash);
    let qc = to_chars(q.as_str());
    let absolute = qc.len() > 0 && qc[0] == '/';
    let comps = split_str(q.as_str(), '/');
    let ghost cs = split_spec(q@, '/');
    let mut parts: Vec<String> = Vec::new();
    let mut i: usize = 0;
    while i < comps.len()
        invariant
            0 <= i <= comps.len(),
            views(comps@) == cs,
            views(parts@) == norm_parts(cs.take(i as int), absolute),
        decreases comps.len() - i,
    {
        proof {
            assert(cs.take(i + 1).drop_last() =~= cs.take(i as int));
            assert(cs.take(i + 1).last() == comps@[i as int]@);
        }
        let ghost before = views(parts@);
        let c = &comps[i];
        if empty_text(c.as_str()) || is_dot(c) {
        } else if is_dotdot(c) {
            let n = parts.len();
            if n > 0 && !is_dotdot(&parts[n - 1]) {
                parts.pop();
                proof {
                    assert(views(parts@) =~= before.drop_last());
                }
            } else if !absolute {
                let dd = owned("..");
                proof {
                    reveal_strlit("..");
                    assert(dd@ =~= dotdot());
                }
                parts.push(dd);
                proof {
                    assert(views(parts@) =~= before.push(dotdot()));
                }
            }
        } else {
            let t = copy_string(c);
            parts.push(t);
            proof {
                assert(views(parts@) =~= before.push(c@));
            }
        }
        i += 1;
    }
    proof {
        assert(cs.take(cs.len() as int) == cs);
    }
    let body = join_strings(parts.as_slice(), slash);
    let mut res = String::new();
    if absolute {
        push_str(&mut res, slash);
    }
    push_str(&mut res, body.as_str());
    proof {
        assert(absolute == (q@.len() > 0 && q@[0] == '/'));
    }
    if empty_text(res.as_str()) {
        proof {
            reveal_strlit(".");
        }
        owned(".")
    } else {
        res
    }
}

/// The normal form of a path; nothing for no path.
pub fn normpath(path: Option<&str>) -> (r: Option<String>)
    ensures
        match path {
            Some(p) => r is Some && r->0@ == normalize_spec(p@),
            None => r is None,
        },
{
    match path {
        Some(p) => Some(normalize_path(p)),
        None => None,
    }
}

// ---------------------------------------------------------------------------
// The home directory
// ---------------------------------------------------------------------------

/// `~` and `~/...` replaced by the home directory, after normalising.
pub open spec fn expand_spec(p: Seq<char>, home: Seq<char>) -> Seq<char> {
    let n = normalize_spec(p);
    if n == seq!['~'] {
        home
    } else if starts_with_spec(n, seq!['~', '/']) {
        home + seq!['/'] + n.skip(2)
    } else {
        n
    }
}

/// The home directory, and what lies below it, written with `~`, after normalising.
pub open spec fn unexpand_spec(p: Seq<char>, home: Seq<char>) -> Seq<char> {
    let n = normalize_spec(p);
    if n == home {
        seq!['~']
    } else if starts_with_spec(n, home + seq!['/']) {
        seq!['~', '/'] + n.skip(home.len() + 1int)
    } else {
        n
    }
}

fn skip_chars(s: &String, k: usize) -> (r: String)
    requires
        k <= s@.len(),
    ensures
        r@ == s@.skip(k as int),
{
    let v = to_chars(s.as_str());
    let t = sub_chars(v.as_slice(), k, v.len());
    proof {
        assert(v@.subrange(k as int, v@.len() as int) =~= s@.skip(k as int));
    }
    from_chars(t.as_slice())
}

/// Expands a leading `~` to `home`, the normalised home directory.
pub fn expanduser(path: &str, home: &str) -> (r: String)
    ensures
        r@ == expand_spec(path@, home@),
{
    let n = normalize_path(path);
    proof {
        reveal_strlit("~");
        reveal_strlit("~/");
        reveal_strlit("/");
    }
    let tilde = "~";
    let tilde_slash = "~/";
    assert(tilde@ =~= seq!['~']);
    assert(tilde_slash@ =~= seq!['~', '/']);
    if str_eq(n.as_str(), tilde) {
        owned(home)
    } else if starts_with_str(n.as_str(), tilde_slash) {
        let mut r = owned(home);
        push_str(&mut r, "/");
        let rest = skip_chars(&n, 2);
        push_str(&mut r, rest.as_str());
        assert(r@ =~= home@ + seq!['/'] + n@.skip(2));
        r
    } else {
        n
    }
}

/// Writes the home directory `home` (normalised) as `~`.
pub fn unexpanduser(path: &str, home: &str) -> (r: String)
    ensures
        r@ == unexpand_spec(path@, home@),
{
    let n = normalize_path(path);
    proof {
        reveal_strlit("~");
        reveal_strlit("~/");
        reveal_strlit("/");
    }
    if str_eq(n.as_str(), home) {
        let r = owned("~");
        assert(r@ =~= seq!['~']);
        r
    } else {
        let mut prefix = owned(home);
        push_str(&mut prefix, "/");
        assert(prefix@ =~= home@ + seq!['/']);
        if starts_with_str(n.as_str(), prefix.as_str()) {
            let mut r = owned("~/");
            let pl = to_chars(prefix.as_str()).len();
            let rest = skip_chars(&n, pl);
            push_str(&mut r, rest.as_str());
            assert(r@ =~= seq!['~', '/'] + n@.skip(home@.len() + 1int));
            r
        } else {
            n
        }
    }
}

/// The home, current and parent directories against which relative names are read.
#[derive(Debug, Clone, PartialEq, Eq)]
pub struct DirContext {
    pub home_dir: String,
    pub cur_dir: String,
    pub parent_dir: String,
}

/// A directory name read against a context: `~` is home, `..` the parent,
/// `./` and plain names the current directory; the result normalised.
pub open spec fn expand_dir_spec(home: Seq<char>, cur: Seq<char>, parent: Seq<char>, d: Seq<char>) -> Seq<char> {
    let e = if starts_with_spec(d, seq!['~']) {
        home + d.skip(1)
    } else if starts_with_spec(d, dotdot()) {
        parent + d.skip(2)
    } else if starts_with_spec(d, seq!['.', '/']) {
        cur + seq!['/'] + d.skip(2)
    } else if d == dot() {
        cur
    } else if starts_with_spec(d, seq!['/']) {
        d
    } else {
        cur + seq!['/'] + d
    };
    normalize_spec(e)
}

fn skip_str(s: &str, k: usize) -> (r: String)
    requires
        k <= s@.len(),
    ensures
        r@ == s@.skip(k as int),
{
    let t = owned(s);
    skip_chars(&t, k)
}

/// Reads a directory name against the home, current and parent directories.
#[allow(non_snake_case)]
pub fn expandDir(context: &DirContext, dir_name: &str) -> (r: String)
    ensures
        r@ == expand_dir_spec(context.home_dir@, context.cur_dir@, context.parent_dir@, dir_name@),
{
    proof {
        reveal_strlit("~");
        reveal_strlit("..");
        reveal_strlit("./");
        reveal_strlit(".");
        reveal_strlit("/");
    }
    let e: String = if starts_with_str(dir_name, "~") {
        let mut r = copy_string(&context.home_dir);
        let rest = skip_str(dir_name, 1);
        push_str(&mut r, rest.as_str());
        r
    } else if starts_with_str(dir_name, "..") {
        let mut r = copy_string(&context.parent_dir);
        let rest = skip_str(dir_name, 2);
        push_str(&mut r, rest.as_str());
        r
    } else if starts_with_str(dir_name, "./") {
        let mut r = copy_string(&context.cur_dir);
        push_str(&mut r, "/");
        let rest = skip_str(dir_name, 2);
        push_str(&mut r, rest.as_str());
        r
    } else if str_eq(dir_name, ".") {
        copy_string(&context.cur_dir)
    } else if starts_with_str(dir_name, "/") {
        owned(dir_name)
    } else {
        let mut r = copy_string(&context.cur_dir);
        push_str(&mut r, "/");
        push_str(&mut r, dir_name);
        r
    };
    proof {
        assert("~"@ =~= seq!['~']);
        assert(".."@ =~= dotdot());
        assert("./"@ =~= seq!['.', '/']);
        assert("."@ =~= dot());
        assert("/"@ =~= seq!['/']);
    }
    normalize_path(e.as_str())
}

/// A path with a leading `/` added where it has none; empty text stays empty.
#[allow(non_snake_case)]
pub fn prefixSlash(path: Option<&str>) -> (r: Option<String>)
    ensures
        match path {
            Some(p) => r is Some && r->0@ == (if p@.len() == 0 || p@[0] == '/' {
                p@
            } else {
                seq!['/'] + p@
            }),
            None => r is None,
        },
{
    match path {
        Some(p) => {
            let v = to_chars(p);
            if v.len() == 0 || v[0] == '/' {
                Some(owned(p))
            } else {
                let mut r = owned("/");
                proof {
                    reveal_strlit("/");
                }
                push_str(&mut r, p);
                assert(r@ =~= seq!['/'] + p@);
                Some(r)
            }
        },
        None => None,
    }
}

// ---------------------------------------------------------------------------
// Directory, file and extension
// ---------------------------------------------------------------------------

/// The text before and after the last `.` of `s`, if it has one.
pub open spec fn rsplit_dot(s: Seq<char>) -> Option<(Seq<char>, Seq<char>)> {
    if exists|i: int| last_at(s, '.', i) {
        let i = choose|i: int| last_at(s, '.', i);
        Some((s.take(i), s.skip(i + 1)))
    } else {
        None
    }
}

proof fn lemma_last_unique(s: Seq<char>, c: char, i: int, j: int)
    requires
        last_at(s, c, i),
        last_at(s, c, j),
    ensures
        i == j,
{
}

fn rsplit_dot_exec(s: &str) -> (r: Option<(String, String)>)
    ensures
        match r {
            Some(p) => rsplit_dot(s@) == Some((p.0@, p.1@)),
            None => rsplit_dot(s@) is None,
        },
{
    let v = to_chars(s);
    match rfind_char(v.as_slice(), '.') {
        Some(i) => {
            let a = sub_chars(v.as_slice(), 0, i);
            let b = sub_chars(v.as_slice(), i + 1, v.len());
            proof {
                let k = choose|k: int| last_at(s@, '.', k);
                lemma_last_unique(s@, '.', i as int, k);
                assert(a@ =~= s@.take(i as int));
                assert(b@ =~= s@.skip(i + 1));
            }
            Some((from_chars(a.as_slice()), from_chars(b.as_slice())))
        },
        None => {
            proof {
                assert(!exists|i: int| last_at(s@, '.', i));
            }
            None
        },
    }
}

/// The directory part: the normalised parent, empty for none or for `.`.
pub open spec fn dir_nm_spec(p: Seq<char>) -> Seq<char> {
    let n = normalize_spec(path_parent_text(p));
    if path_parent_text(p).len() == 0 || n == dot() {
        seq![]
    } else {
        n
    }
}

/// The directory part of a path.
#[allow(non_snake_case)]
pub fn dirNm(path: &str) -> (r: String)
    ensures
        r@ == dir_nm_spec(path@),
{
    let parent = path_parent(path);
    if empty_text(parent.as_str()) {
        return String::new();
    }
    let n = normalize_path(parent.as_str());
    if is_dot(&n) {
        String::new()
    } else {
        n
    }
}

/// The file-name part of a path.
#[allow(non_snake_case)]
pub fn fileNm(path: &str) -> (r: String)
    ensures
        r@ == path_file_name_text(path@),
{
    path_file_name(path)
}

/// The extension of the file name: what follows its last `.`, or the whole
/// file name where it has no `.`.
pub open spec fn ext_nm_spec(p: Seq<char>) -> Seq<char> {
    let f = path_file_name_text(p);
    match rsplit_dot(f) {
        Some(parts) => parts.1,
        None => f,
    }
}

#[allow(non_snake_case)]
pub fn extNm(path: &str) -> (r: String)
    ensures
        r@ == ext_nm_spec(path@),
{
    let f = fileNm(path);
    match rsplit_dot_exec(f.as_str()) {
        Some((_, ext)) => ext,
        None => f,
    }
}

/// The path without the extension of its file name.
pub open spec fn strip_ext_spec(p: Seq<char>) -> Seq<char> {
    let d = dir_nm_spec(p);
    let f = path_file_name_text(p);
    let stem = match rsplit_dot(f) {
        Some(parts) => parts.0,
        None => f,
    };
    if d.len() == 0 {
        stem
    } else {
        d + seq!['/'] + stem
    }
}

#[allow(non_snake_case)]
pub fn stripExt(path: &str) -> (r: String)
    ensures
        r@ == strip_ext_spec(path@),
{
    let d = dirNm(path);
    let f = fileNm(path);
    let stem = match rsplit_dot_exec(f.as_str()) {
        Some((s, _)) => s,
        None => f,
    };
    if empty_text(d.as_str()) {
        stem
    } else {
        let mut r = d;
        push_str(&mut r, "/");
        push_str(&mut r, stem.as_str());
        proof {
            reveal_strlit("/");
            assert(r@ =~= dir_nm_spec(path@) + seq!['/'] + stem@);
        }
        r
    }
}

/// The path with the extension of its file name replaced by `new_ext`.
#[allow(non_snake_case)]
pub fn replaceExt(path: &str, new_ext: &str) -> (r: String)
    ensures
        r@ == strip_ext_spec(path@) + seq!['.'] + new_ext@,
{
    let mut r = stripExt(path);
    let ghost s0 = r@;
    push_str(&mut r, ".");
    push_str(&mut r, new_ext);
    proof {
        reveal_strlit(".");
        assert(r@ =~= s0 + seq!['.'] + new_ext@);
    }
    r
}

/// The directory and file-name parts of a path.
#[allow(non_snake_case)]
pub fn splitPath(path: &str) -> (r: (String, String))
    ensures
        r.0@ == dir_nm_spec(path@),
        r.1@ == path_file_name_text(path@),
{
    (dirNm(path), fileNm(path))
}

/// A path split before the `.` of its last extension; without a proper
/// extension (no `.`, nothing before it, or a `/` after it) the extension is empty.
pub open spec fn split_ext_spec(p: Seq<char>) -> (Seq<char>, Seq<char>) {
    match rsplit_dot(p) {
        Some(parts) => if parts.0.len() == 0 || !no_char(parts.1, '/') {
            (p, seq![])
        } else {
            (parts.0, seq!['.'] + parts.1)
        },
        None => (p, seq![]),
    }
}

#[allow(non_snake_case)]
pub fn splitExt(path: &str) -> (r: (String, String))
    ensures
        (r.0@, r.1@) == split_ext_spec(path@),
{
    match rsplit_dot_exec(path) {
        Some((stem, ext)) => {
            let ev = to_chars(ext.as_str());
            let has_slash = crate::strs::find_char(ev.as_slice(), '/').is_some();
            if empty_text(stem.as_str()) || has_slash {
                (owned(path), String::new())
            } else {
                let mut e = owned(".");
                push_str(&mut e, ext.as_str());
                proof {
                    reveal_strlit(".");
                    assert(e@ =~= seq!['.'] + ext@);
                }
                (stem, e)
            }
        },
        None => (owned(path), String::new()),
    }
}

} // verus!
