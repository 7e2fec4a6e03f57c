//! Paths as text, with the Unix rules of `std::path`: `/` separates
//! components, empty and `.` components are ignored when looking for the last
//! one or comparing two paths, and joining a relative path inserts a
//! separator only where needed.

use vstd::prelude::*;

verus! {

broadcast use vstd::string::group_string_axioms;

/// Start of the run of non-separator characters that ends at position `n` of `p`.
pub open spec fn seg_start(p: Seq<char>, n: int) -> int
    decreases n,
{
    if n <= 0 {
        0
    } else if p[n - 1] == '/' {
        n
    } else {
        seg_start(p, n - 1)
    }
}

pub proof fn lemma_seg_start_bounds(p: Seq<char>, n: int)
    requires
        0 <= n <= p.len(),
    ensures
        0 <= seg_start(p, n) <= n,
        seg_start(p, n) == 0 || p[seg_start(p, n) - 1] == '/',
        forall|i: int| seg_start(p, n) <= i < n ==> p[i] != '/',
    decreases n,
{
    if n > 0 && p[n - 1] != '/' {
        lemma_seg_start_bounds(p, n - 1);
    }
}

/// The last component of `p[0..n]` that is neither empty nor `.`, if any.
pub open spec fn last_component_in(p: Seq<char>, n: int) -> Option<Seq<char>>
    decreases n,
{
    if n <= 0 || n > p.len() {
        None
    } else if p[n - 1] == '/' {
        last_component_in(p, n - 1)
    } else {
        let k = seg_start(p, n);
        proof {
            lemma_seg_start_bounds(p, n - 1);
        }
        if p.subrange(k, n) =~= seq!['.'] {
            last_component_in(p, k)
        } else {
            Some(p.subrange(k, n))
        }
    }
}

/// `Path::file_name`: the last component of the path, unless that is `..`
/// or the path has none (it is empty, `/`, or made of `.` components).
pub open spec fn spec_file_name(p: Seq<char>) -> Option<Seq<char>> {
    match last_component_in(p, p.len() as int) {
        Some(c) => if c =~= seq!['.', '.'] {
            None
        } else {
            Some(c)
        },
        None => None,
    }
}

/// A name is hidden when it starts with a dot.
pub open spec fn spec_is_hidden_name(name: Seq<char>) -> bool {
    name.len() > 0 && name[0] == '.'
}

/// A path is visible to the scan when it has a file name that is not hidden.
pub open spec fn spec_is_visible(p: Seq<char>) -> bool {
    match spec_file_name(p) {
        Some(n) => !spec_is_hidden_name(n),
        None => false,
    }
}

/// `PathBuf::push` / `Path::join` on Unix: an absolute `rel` replaces `base`;
/// otherwise `rel` is appended, after a `/` when `base` is non-empty and does
/// not already end in one.
pub open spec fn spec_join(base: Seq<char>, rel: Seq<char>) -> Seq<char> {
    if rel.len() > 0 && rel[0] == '/' {
        rel
    } else if base.len() > 0 && base.last() != '/' {
        base + seq!['/'] + rel
    } else {
        base + rel
    }
}

/// The file name of a path, as `Path::file_name` computes it.
pub fn file_name(path: &str) -> (r: Option<String>)
    ensures
        match r {
            Some(s) => spec_file_name(path@) == Some(s@),
            None => spec_file_name(path@) is None,
        },
{
    let len = path.unicode_len();
    let mut n = len;
    while n > 0
        invariant
            len == path@.len(),
            n <= len,
            last_component_in(path@, n as int) == last_component_in(path@, len as int),
        decreases n,
    {
        let c = path.get_char(n - 1);
        if c == '/' {
            n = n - 1;
        } else {
            let mut k = n - 1;
            while k > 0 && path.get_char(k - 1) != '/'
                invariant
                    len == path@.len(),
                    0 <= k < n <= len,
                    path@[n - 1] != '/',
                    seg_start(path@, n as int) == seg_start(path@, k as int),
                decreases k,
            {
                k = k - 1;
            }
            assert(seg_start(path@, n as int) == k);
            let seg = path.substring_char(k, n);
            if n - k == 1 && seg.get_char(0) == '.' {
                assert(path@.subrange(k as int, n as int) =~= seq!['.']);
                n = k;
            } else {
                assert(!(path@.subrange(k as int, n as int) =~= seq!['.']));
                if n - k == 2 && seg.get_char(0) == '.' && seg.get_char(1) == '.' {
                    assert(seg@ =~= seq!['.', '.']);
                    return None;
                }
                assert(!(seg@ =~= seq!['.', '.']));
                return Some(seg.to_string());
            }
        }
    }
    None
}

/// Whether a file name is hidden (starts with `.`).
pub fn is_hidden_name(name: &str) -> (r: bool)
    ensures
        r == spec_is_hidden_name(name@),
        r == (name@.len() > 0 && name@[0] == '.'),
{
    name.unicode_len() > 0 && name.get_char(0) == '.'
}

/// Whether the scan looks at a path: it must have a file name, and that name
/// must not start with `.`.
pub fn is_visible(path: &str) -> (r: bool)
    ensures
        r == spec_is_visible(path@),
{
    match file_name(path) {
        Some(name) => !is_hidden_name(name.as_str()),
        None => false,
    }
}

/// Joins a relative path onto a base path, as `Path::join` does on Unix.
pub fn join(base: &str, rel: &str) -> (r: String)
    ensures
        r@ == spec_join(base@, rel@),
{
    let rel_len = rel.unicode_len();
    if rel_len > 0 && rel.get_char(0) == '/' {
        return rel.to_string();
    }
    let base_len = base.unicode_len();
    let mut out = base.to_string();
    if base_len > 0 && base.get_char(base_len - 1) != '/' {
        let sep = "/";
        proof {
            reveal_strlit("/");
        }
        out.append(sep);
    }
    out.append(rel);
    out
}


/// What `std::path` compares when it compares two paths on Unix: whether
/// the path starts at the root, whether it starts with a `.` component
/// (kept only in first place, and only in a relative path), and its other
/// components, empty and `.` ones left out, here listed last to first.
pub struct PathKey {
    pub rooted: bool,
    pub from_current: bool,
    pub parts_rev: Seq<Seq<char>>,
}

/// The components of `p[0..n]` that are neither empty nor `.`, last first.
pub open spec fn parts_rev_in(p: Seq<char>, n: int) -> Seq<Seq<char>>
    decreases n,
{
    if n <= 0 || n > p.len() {
        seq![]
    } else if p[n - 1] == '/' {
        parts_rev_in(p, n - 1)
    } else {
        let k = seg_start(p, n);
        proof {
            lemma_seg_start_bounds(p, n - 1);
        }
        if p.subrange(k, n) =~= seq!['.'] {
            parts_rev_in(p, k)
        } else {
            seq![p.subrange(k, n)] + parts_rev_in(p, k)
        }
    }
}

/// A relative path that starts with a `.` component.
pub open spec fn starts_with_current(p: Seq<char>) -> bool {
    &&& p.len() > 0
    &&& p[0] == '.'
    &&& (p.len() == 1 || p[1] == '/')
}

pub open spec fn path_key(p: Seq<char>) -> PathKey {
    PathKey {
        rooted: p.len() > 0 && p[0] == '/',
        from_current: starts_with_current(p),
        parts_rev: parts_rev_in(p, p.len() as int),
    }
}

/// Two paths are the same path when their components are (`Path`'s `==`):
/// `/h/maths`, `/h/maths/`, `/h//maths` and `/h/./maths` are one path.
pub open spec fn spec_same_path(a: Seq<char>, b: Seq<char>) -> bool {
    path_key(a) == path_key(b)
}

pub open spec fn string_views(v: Seq<String>) -> Seq<Seq<char>> {
    v.map_values(|s: String| s@)
}

/// The components of a path other than empty and `.` ones, last first.
fn parts_rev(path: &str) -> (r: Vec<String>)
    ensures
        string_views(r@) == parts_rev_in(path@, path@.len() as int),
{
    let len = path.unicode_len();
    let mut out: Vec<String> = Vec::new();
    let mut n = len;
    while n > 0
        invariant
            len == path@.len(),
            n <= len,
            parts_rev_in(path@, len as int) == string_views(out@) + parts_rev_in(path@, n as int),
        decreases n,
    {
        let c = path.get_char(n - 1);
        if c == '/' {
            n = n - 1;
        } else {
            let mut k = n - 1;
            while k > 0 && path.get_char(k - 1) != '/'
                invariant
                    len == path@.len(),
                    0 <= k < n <= len,
                    path@[n - 1] != '/',
                    seg_start(path@, n as int) == seg_start(path@, k as int),
                decreases k,
            {
                k = k - 1;
            }
            assert(seg_start(path@, n as int) == k);
            let seg = path.substring_char(k, n);
            if n - k == 1 && seg.get_char(0) == '.' {
                assert(path@.subrange(k as int, n as int) =~= seq!['.']);
            } else {
                assert(!(path@.subrange(k as int, n as int) =~= seq!['.']));
                let ghost before = string_views(out@);
                out.push(seg.to_string());
                assert(string_views(out@) =~= before + seq![seg@]);
                assert(string_views(out@) + parts_rev_in(path@, k as int) =~= before + (seq![seg@]
                    + parts_rev_in(path@, k as int)));
            }
            n = k;
        }
    }
    assert(string_views(out@) + parts_rev_in(path@, 0) =~= string_views(out@));
    out
}

fn same_strings(a: &Vec<String>, b: &Vec<String>) -> (r: bool)
    ensures
        r == (string_views(a@) == string_views(b@)),
{
    if a.len() != b.len() {
        assert(string_views(a@).len() != string_views(b@).len());
        return false;
    }
    let n = a.len();
    let mut i: usize = 0;
    while i < n
        invariant
            n == a@.len(),
            n == b@.len(),
            i <= n,
            forall|j: int| 0 <= j < i ==> a@[j]@ == b@[j]@,
        decreases n - i,
    {
        if a[i] != b[i] {
            assert(string_views(a@)[i as int] != string_views(b@)[i as int]);
            return false;
        }
        i = i + 1;
    }
    assert(string_views(a@) =~= string_views(b@));
    true
}

fn is_rooted(path: &str) -> (r: bool)
    ensures
        r == (path@.len() > 0 && path@[0] == '/'),
{
    path.unicode_len() > 0 && path.get_char(0) == '/'
}

fn is_from_current(path: &str) -> (r: bool)
    ensures
        r == starts_with_current(path@),
{
    let len = path.unicode_len();
    len > 0 && path.get_char(0) == '.' && (len == 1 || path.get_char(1) == '/')
}

/// Whether two paths are the same path, component by component, as `==`
/// on `Path` decides it.
pub fn same_path(a: &str, b: &str) -> (r: bool)
    ensures
        r == spec_same_path(a@, b@),
{
    if is_rooted(a) != is_rooted(b) || is_from_current(a) != is_from_current(b) {
        return false;
    }
    same_strings(&parts_rev(a), &parts_rev(b))
}

/// A plain name: not empty, without `/`, and neither `.` nor `..`.
pub open spec fn is_plain_name(name: Seq<char>) -> bool {
    &&& name.len() > 0
    &&& forall|i: int| 0 <= i < name.len() ==> name[i] != '/'
    &&& !(name =~= seq!['.'])
    &&& !(name =~= seq!['.', '.'])
}

proof fn lemma_seg_start_after(pre: Seq<char>, name: Seq<char>, k: int)
    requires
        pre.len() == 0 || pre.last() == '/',
        forall|i: int| 0 <= i < name.len() ==> name[i] != '/',
        pre.len() <= k <= pre.len() + name.len(),
    ensures
        seg_start(pre + name, k) == pre.len(),
    decreases k,
{
    let p = pre + name;
    if k > pre.len() {
        assert(p[k - 1] == name[k - 1 - pre.len()]);
        lemma_seg_start_after(pre, name, k - 1);
    } else if k > 0 {
        assert(p[k - 1] == pre.last());
    }
}

/// Joining a plain name onto a directory gives a path whose file name is
/// that name.
pub proof fn law_file_name_of_join(base: Seq<char>, name: Seq<char>)
    requires
        is_plain_name(name),
    ensures
        spec_file_name(spec_join(base, name)) == Some(name),
{
    let pre = if base.len() > 0 && base.last() != '/' {
        base + seq!['/']
    } else {
        base
    };
    assert(spec_join(base, name) =~= pre + name);
    let p = pre + name;
    let n = p.len() as int;
    lemma_seg_start_after(pre, name, n);
    assert(p[n - 1] == name[name.len() - 1]);
    assert(p.subrange(pre.len() as int, n) =~= name);
}


proof fn lemma_seg_start_ext(p: Seq<char>, q: Seq<char>, n: int)
    requires
        0 <= n <= p.len(),
        n <= q.len(),
        forall|i: int| 0 <= i < n ==> p[i] == q[i],
    ensures
        seg_start(p, n) == seg_start(q, n),
    decreases n,
{
    if n > 0 {
        lemma_seg_start_ext(p, q, n - 1);
    }
}

/// The components of `p[0..n]` depend on those characters only.
proof fn lemma_parts_rev_ext(p: Seq<char>, q: Seq<char>, n: int)
    requires
        0 <= n <= p.len(),
        n <= q.len(),
        forall|i: int| 0 <= i < n ==> p[i] == q[i],
    ensures
        parts_rev_in(p, n) == parts_rev_in(q, n),
    decreases n,
{
    if n > 0 {
        if p[n - 1] == '/' {
            lemma_parts_rev_ext(p, q, n - 1);
        } else {
            lemma_seg_start_ext(p, q, n);
            lemma_seg_start_bounds(p, n);
            let k = seg_start(p, n);
            assert(p.subrange(k, n) =~= q.subrange(k, n));
            lemma_parts_rev_ext(p, q, k);
        }
    }
}

/// Appending a plain name after a separator (or to nothing) adds it as
/// the last component.
proof fn lemma_parts_rev_push_name(pre: Seq<char>, name: Seq<char>)
    requires
        pre.len() == 0 || pre.last() == '/',
        is_plain_name(name),
    ensures
        parts_rev_in(pre + name, (pre + name).len() as int) == seq![name] + parts_rev_in(
            pre,
            pre.len() as int,
        ),
{
    let p = pre + name;
    let n = p.len() as int;
    lemma_seg_start_after(pre, name, n);
    assert(p[n - 1] == name[name.len() - 1]);
    assert(p.subrange(pre.len() as int, n) =~= name);
    lemma_parts_rev_ext(p, pre, pre.len() as int);
}

/// The base that a name is appended to when joined onto `base`.
proof fn lemma_join_name(base: Seq<char>, name: Seq<char>) -> (pre: Seq<char>)
    requires
        is_plain_name(name),
    ensures
        pre.len() == 0 || pre.last() == '/',
        spec_join(base, name) == pre + name,
        parts_rev_in(pre, pre.len() as int) == parts_rev_in(base, base.len() as int),
{
    if base.len() > 0 && base.last() != '/' {
        let pre = base + seq!['/'];
        assert(spec_join(base, name) =~= pre + name);
        assert(pre[pre.len() - 1] == '/');
        lemma_parts_rev_ext(pre, base, base.len() as int);
        pre
    } else {
        assert(spec_join(base, name) =~= base + name);
        base
    }
}

/// Joining a plain name onto a path adds exactly that name as its last
/// component, and keeps the components before it.
pub proof fn law_join_adds_one_component(base: Seq<char>, name: Seq<char>)
    requires
        is_plain_name(name),
    ensures
        path_key(spec_join(base, name)).parts_rev == seq![name] + path_key(base).parts_rev,
{
    let pre = lemma_join_name(base, name);
    lemma_parts_rev_push_name(pre, name);
}

/// Paths that differ in one component are different paths, wherever that
/// component stands: for distinct plain names `a` and `b`, `d/a/n` and
/// `d/b/n` are not the same path, and `d/a` and `d/b` are not either.
pub proof fn law_paths_differing_in_a_component_differ(
    d: Seq<char>,
    a: Seq<char>,
    b: Seq<char>,
    n: Seq<char>,
)
    requires
        is_plain_name(a),
        is_plain_name(b),
        is_plain_name(n),
        a != b,
    ensures
        !spec_same_path(spec_join(spec_join(d, a), n), spec_join(spec_join(d, b), n)),
        !spec_same_path(spec_join(d, a), spec_join(d, b)),
{
    law_join_adds_one_component(d, a);
    law_join_adds_one_component(d, b);
    law_join_adds_one_component(spec_join(d, a), n);
    law_join_adds_one_component(spec_join(d, b), n);
    let ka = path_key(spec_join(spec_join(d, a), n)).parts_rev;
    let kb = path_key(spec_join(spec_join(d, b), n)).parts_rev;
    assert(ka[1] == a && kb[1] == b);
    assert(path_key(spec_join(d, a)).parts_rev[0] == a);
    assert(path_key(spec_join(d, b)).parts_rev[0] == b);
}

/// A trailing separator or a `.` component does not change the path:
/// `d/a`, `d/a/` and `d/a/.` are the same path.
pub proof fn law_trailing_separator_same_path(d: Seq<char>, a: Seq<char>)
    requires
        is_plain_name(a),
    ensures
        spec_same_path(spec_join(d, a), spec_join(d, a) + seq!['/']),
        spec_same_path(spec_join(d, a), spec_join(d, a) + seq!['/', '.']),
{
    let p = spec_join(d, a);
    let pre = lemma_join_name(d, a);
    assert(p.len() > 0);
    let p1 = p + seq!['/'];
    let p2 = p + seq!['/', '.'];
    assert(p1[p1.len() - 1] == '/');
    lemma_parts_rev_ext(p1, p, p.len() as int);
    assert(p2[p2.len() - 1] == '.');
    assert(p2[p2.len() - 2] == '/');
    assert(seg_start(p2, p2.len() - 1) == p2.len() - 1);
    assert(seg_start(p2, p2.len() as int) == p2.len() - 1);
    assert(p2.subrange(p2.len() - 1, p2.len() as int) =~= seq!['.']);
    assert(parts_rev_in(p2, p2.len() - 1) == parts_rev_in(p2, p2.len() - 2));
    lemma_parts_rev_ext(p2, p, p.len() as int);
    assert(p[0] == p1[0] && p[0] == p2[0]);
    if p.len() == 1 {
        assert(p == a);
    }
}

/// A name is hidden exactly when it starts with a dot, so a path joined
/// from a plain name is seen by the scan unless that name starts with `.`
/// (`lecture 1.pdf` is seen, `.git` is not).
pub proof fn law_joined_name_visible_unless_dot(base: Seq<char>, name: Seq<char>)
    requires
        is_plain_name(name),
    ensures
        spec_is_visible(spec_join(base, name)) <==> name[0] != '.',
        spec_is_hidden_name(name) <==> name[0] == '.',
{
    law_file_name_of_join(base, name);
}

} // verus!
