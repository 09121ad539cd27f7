//! Workspace-relative file locations.
use vstd::prelude::*;
use crate::strutil::{cat2, cat3, chars_of, owned};

verus! {

/// `Path::join` of a relative component on Unix: the separator is added
/// unless the base is empty or already ends with one.
pub open spec fn path_join(base: Seq<char>, part: Seq<char>) -> Seq<char> {
    if base.len() == 0 {
        part
    } else if base.last() == '/' {
        base + part
    } else {
        base + "/"@ + part
    }
}

/// Joins a relative component onto a path.
pub fn join(base: &str, part: &str) -> (r: String)
    ensures r@ == path_join(base@, part@),
{
    let n = base.unicode_len();
    if n == 0 {
        owned(part)
    } else if base.get_char(n - 1) == '/' {
        cat2(base, part)
    } else {
        cat3(base, "/", part)
    }
}

/// `<dir>/<name>.json`.
pub open spec fn json_path(dir: Seq<char>, name: Seq<char>) -> Seq<char> {
    path_join(dir, name + ".json"@)
}

pub fn join_json(dir: &str, name: &str) -> (r: String)
    ensures r@ == json_path(dir@, name@),
{
    let f = cat2(name, ".json");
    join(dir, f.as_str())
}

/// `Path::strip_prefix` by components for a normalised path: when `path`
/// is `base` followed by a separator, the rest; otherwise `path` itself.
pub open spec fn relative_to(path: Seq<char>, base: Seq<char>) -> Seq<char> {
    if base.len() > 0 && base.last() == '/' && path.len() >= base.len() && path.subrange(0, base.len() as int) == base {
        path.subrange(base.len() as int, path.len() as int)
    } else if base.len() > 0 && path.len() > base.len() && path.subrange(0, base.len() as int) == base && path[base.len() as int] == '/' {
        path.subrange((base.len() + 1) as int, path.len() as int)
    } else {
        path
    }
}

/// A path made relative to `base` when it lies under it.
pub fn relative_path(path: &str, base: &str) -> (r: String)
    ensures r@ == relative_to(path@, base@),
{
    let p = chars_of(path);
    let b = chars_of(base);
    let bl = b.len();
    let pl = p.len();
    let mut i: usize = 0;
    let mut prefix = bl <= pl;
    while prefix && i < bl
        invariant
            p@ == path@, b@ == base@, bl == b@.len(), pl == p@.len(),
            i <= bl,
            prefix ==> bl <= pl && forall|k: int| 0 <= k < i ==> p@[k] == b@[k],
            !prefix ==> !(bl <= pl && p@.subrange(0, bl as int) == b@),
        decreases bl - i,
    {
        if p[i] != b[i] {
            prefix = false;
            proof {
                if bl <= pl && p@.subrange(0, bl as int) == b@ {
                    assert(p@.subrange(0, bl as int)[i as int] == p@[i as int]);
                }
            }
        }
        i = i + 1;
    }
    if prefix {
        assert(p@.subrange(0, bl as int) =~= b@);
    }
    let mut start: usize = pl;
    if prefix && bl > 0 && b[bl - 1] == '/' {
        start = bl;
    } else if prefix && bl > 0 && pl > bl && p[bl] == '/' {
        start = bl + 1;
    }
    if start == pl && !(prefix && bl > 0 && ((b[bl - 1] == '/') || (pl > bl && p[bl] == '/'))) {
        return owned(path);
    }
    let mut out: Vec<char> = Vec::new();
    let mut q = start;
    while q < pl
        invariant
            start <= q <= pl,
            pl == p@.len(),
            out@ == p@.subrange(start as int, q as int),
        decreases pl - q,
    {
        out.push(p[q]);
        q = q + 1;
        assert(out@ =~= p@.subrange(start as int, q as int));
    }
    crate::strutil::string_from_chars(&out)
}

} // verus!
