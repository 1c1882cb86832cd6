//! File paths and `file:` URLs.
//!
//! A path is a text in which `/` separates the components; it is absolute when
//! it starts with `/`.

use tower_lsp::lsp_types::Url;
use vstd::prelude::*;

use crate::model::{opt_view, views};
use crate::text::{
    copy_str, last_at, part, parts, rfind_char, same, split, split_char, to_chars, to_text,
};

verus! {

// ---------------------------------------------------------------------------
// Paths
// ---------------------------------------------------------------------------

/// Whether a path starts at the root.
pub open spec fn absolute(p: Seq<char>) -> bool {
    p.len() > 0 && p[0] == '/'
}

/// The path `rel`, seen from the directory `base`. An absolute path stands for
/// itself.
pub open spec fn joined(base: Seq<char>, rel: Seq<char>) -> Seq<char> {
    if absolute(rel) || base.len() == 0 {
        rel
    } else if base.last() == '/' {
        base + rel
    } else {
        base.push('/') + rel
    }
}

/// A path without the separators and `.` components at its end.
pub open spec fn strip_end(p: Seq<char>) -> Seq<char>
    decreases p.len(),
{
    if p.len() >= 2 && (p.last() == '/' || (p.last() == '.' && p[p.len() - 2] == '/')) {
        strip_end(p.drop_last())
    } else {
        p
    }
}

/// The path without its last component; the root and the empty path have none.
pub open spec fn parent_of(p: Seq<char>) -> Option<Seq<char>> {
    let q = strip_end(p);
    if q.len() == 0 || q == seq!['/'] {
        None
    } else {
        let k = last_at(q, '/');
        if k < 0 {
            Some(Seq::empty())
        } else if k == 0 {
            Some(seq!['/'])
        } else {
            Some(strip_end(q.take(k)))
        }
    }
}

/// Whether a path starts at the root.
pub fn is_absolute(p: &str) -> (r: bool)
    ensures
        r == absolute(p@),
{
    let c = to_chars(p);
    c.len() > 0 && c[0] == '/'
}

/// The path `rel`, seen from the directory `base`.
pub fn join_path(base: &str, rel: &str) -> (r: String)
    ensures
        r@ == joined(base@, rel@),
{
    let b = to_chars(base);
    if is_absolute(rel) || b.len() == 0 {
        return copy_str(rel);
    }
    let mut out = copy_str(base);
    if b[b.len() - 1] != '/' {
        out.push('/');
    }
    out.push_str(rel);
    out
}

/// A path without the separators and `.` components at its end.
pub(crate) fn without_end(p: &[char]) -> (r: &[char])
    ensures
        r@ == strip_end(p@),
{
    let mut n: usize = p.len();
    assert(p@.take(n as int) =~= p@);
    while n >= 2 && (p[n - 1] == '/' || (p[n - 1] == '.' && p[n - 2] == '/'))
        invariant
            n <= p@.len(),
            strip_end(p@) == strip_end(p@.take(n as int)),
        decreases n,
    {
        assert(p@.take(n as int).drop_last() =~= p@.take(n - 1));
        n = n - 1;
    }
    part(p, 0, n)
}

/// The path without its last component.
pub fn parent_path(p: &str) -> (r: Option<String>)
    ensures
        opt_view(r) == parent_of(p@),
{
    let c = to_chars(p);
    let q = without_end(&c);
    if q.len() == 0 {
        return None;
    }
    if q.len() == 1 && q[0] == '/' {
        assert(q@ =~= seq!['/']);
        return None;
    }
    match rfind_char(q, '/') {
        None => {
            let empty = String::new();
            Some(empty)
        },
        Some(k) => {
            if k == 0 {
                let root = to_text(part(q, 0, 1));
                proof {
                    lemma_last_at_holds(q@, '/');
                }
                assert(root@ =~= seq!['/']);
                Some(root)
            } else {
                let head = part(q, 0, k);
                assert(head@ =~= q@.take(k as int));
                Some(to_text(without_end(head)))
            }
        },
    }
}

/// The character is where `last_at` says.
proof fn lemma_last_at_holds(s: Seq<char>, c: char)
    ensures
        last_at(s, c) >= 0 ==> last_at(s, c) < s.len() && s[last_at(s, c)] == c,
    decreases s.len(),
{
    if s.len() > 0 && s.last() != c {
        lemma_last_at_holds(s.drop_last(), c);
    }
}

/// Whether component `i` of a path counts: an empty one and a `.` do not,
/// except for a `.` that a relative path starts with.
pub open spec fn counts(i: int, component: Seq<char>) -> bool {
    component.len() > 0 && (component != seq!['.'] || i == 0)
}

/// The components of a path that count, from component `i` on.
pub open spec fn components_from(parts: Seq<Seq<char>>, i: int) -> Seq<Seq<char>>
    decreases parts.len() - i,
{
    if i < 0 || i >= parts.len() {
        Seq::empty()
    } else if counts(i, parts[i]) {
        seq![parts[i]] + components_from(parts, i + 1)
    } else {
        components_from(parts, i + 1)
    }
}

/// What distinguishes a path from others: whether it is absolute, and the
/// components that count.
pub open spec fn path_key(p: Seq<char>) -> (bool, Seq<Seq<char>>) {
    (absolute(p), components_from(split(p, '/'), 0))
}

/// The components of a path that count.
fn components(p: &[char]) -> (r: Vec<&[char]>)
    ensures
        parts(r@) == components_from(split(p@, '/'), 0),
{
    let pieces = split_char(p, '/');
    let ghost all = split(p@, '/');
    let mut out: Vec<&[char]> = Vec::new();
    let mut i: usize = 0;
    assert(parts(out@) + components_from(all, 0) =~= components_from(all, 0));
    while i < pieces.len()
        invariant
            all == split(p@, '/'),
            parts(pieces@) == all,
            i <= pieces@.len(),
            parts(out@) + components_from(all, i as int) == components_from(all, 0),
        decreases pieces@.len() - i,
    {
        let piece = pieces[i];
        assert(all[i as int] == piece@);
        let dot = piece.len() == 1 && piece[0] == '.';
        assert(dot == (piece@ == seq!['.'])) by {
            if dot {
                assert(piece@ =~= seq!['.']);
            }
        }
        let ghost before = out@;
        if piece.len() > 0 && (!dot || i == 0) {
            out.push(piece);
            assert(parts(out@) =~= parts(before).push(piece@));
            assert(parts(before) + (seq![piece@] + components_from(all, i + 1))
                =~= parts(out@) + components_from(all, i + 1));
        }
        i = i + 1;
    }
    assert(parts(out@) + components_from(all, i as int) =~= parts(out@));
    out
}

/// Whether two texts are spellings of the same path.
pub fn same_path(a: &str, b: &str) -> (r: bool)
    ensures
        r == (path_key(a@) == path_key(b@)),
{
    if is_absolute(a) != is_absolute(b) {
        return false;
    }
    let ac = to_chars(a);
    let bc = to_chars(b);
    let x = components(&ac);
    let y = components(&bc);
    let ghost xs = parts(x@);
    let ghost ys = parts(y@);
    if x.len() != y.len() {
        assert(xs.len() != ys.len());
        return false;
    }
    let mut i: usize = 0;
    while i < x.len()
        invariant
            xs == parts(x@),
            xs == path_key(a@).1,
            ys == parts(y@),
            ys == path_key(b@).1,
            x@.len() == y@.len(),
            i <= x@.len(),
            forall|k: int| 0 <= k < i ==> #[trigger] xs[k] == ys[k],
        decreases x@.len() - i,
    {
        assert(xs[i as int] == x@[i as int]@);
        assert(ys[i as int] == y@[i as int]@);
        if !same(x[i], y[i]) {
            return false;
        }
        i = i + 1;
    }
    assert(xs =~= ys);
    true
}

/// Whether a list of paths has the path `p`, in any spelling.
pub open spec fn has_path(paths: Seq<Seq<char>>, p: Seq<char>) -> bool {
    exists|i: int| 0 <= i < paths.len() && path_key(#[trigger] paths[i]) == path_key(p)
}

/// Whether a list of paths has the path `p`, in any spelling.
pub fn holds_path(paths: &Vec<String>, p: &str) -> (r: bool)
    ensures
        r == has_path(views(paths@), p@),
{
    let ghost all = views(paths@);
    let mut i: usize = 0;
    while i < paths.len()
        invariant
            all == views(paths@),
            i <= paths@.len(),
            forall|k: int| 0 <= k < i ==> path_key(#[trigger] all[k]) != path_key(p@),
        decreases paths@.len() - i,
    {
        assert(all[i as int] == paths@[i as int]@);
        if same_path(paths[i].as_str(), p) {
            return true;
        }
        i = i + 1;
    }
    false
}

// ---------------------------------------------------------------------------
// URLs
// ---------------------------------------------------------------------------

/// The `file:` URL of a path, as on Unix targets, for a path that has one.
pub uninterp spec fn file_url(path: Seq<char>) -> Option<Seq<char>>;

/// The path that a `file:` URL names, as on Unix targets, for a URL that names one.
pub uninterp spec fn url_path(url: Seq<char>) -> Option<Seq<char>>;

/// The last segment of a URL's path, for a URL with segments.
pub uninterp spec fn url_file_name(url: Seq<char>) -> Option<Seq<char>>;

/// Whether a path survives the way through a URL: it does not go up, a URL parser
/// takes no component for a drive letter, and the URL is short enough to be
/// parsed.
pub open spec fn url_safe(p: Seq<char>) -> bool {
    &&& absolute(p)
    &&& 12 * p.len() + 7 <= u32::MAX
    &&& forall|i: int| 0 <= i < p.len() ==> #[trigger] p[i] != ':' && p[i] != '|'
    &&& !path_key(p).1.contains(".."@)
}

/// Whether a path is written without empty and `.` components.
pub open spec fn tidy(p: Seq<char>) -> bool {
    let names = split(p.skip(1), '/');
    forall|i: int|
        0 <= i < names.len() ==> (#[trigger] names[i]).len() > 0 && names[i] != "."@
}

/// `Url::from_file_path`, on Unix targets: percent-encodes the components of an
/// absolute path. A path that is not absolute has no URL. `Url::to_file_path` leads
/// from the URL back to the path, unless the parser of URLs changes its components;
/// empty and `.` components are not kept.
#[verifier::external_body]
fn url_from_file_path(path: &str) -> (r: Option<String>)
    ensures
        opt_view(r) == file_url(path@),
        r is Some <==> absolute(path@),
        r matches Some(u) ==> url_safe(path@) ==> (url_path(u@) matches Some(p) && path_key(p)
            == path_key(path@)),
        r matches Some(u) ==> url_safe(path@) && tidy(path@) ==> url_path(u@) == Some(path@),
{
    Url::from_file_path(path).ok().map(|u| u.to_string())
}

/// `Url::parse` and `Url::to_file_path`, on Unix targets: decodes the path of a
/// `file:` URL. `None` for a text that is no URL, for a URL that names no local
/// file, and for a path that is not UTF-8.
#[verifier::external_body]
fn url_to_file_path(uri: &str) -> (r: Option<String>)
    ensures
        opt_view(r) == url_path(uri@),
{
    let url = Url::parse(uri).ok()?;
    let path = url.to_file_path().ok()?;
    path.to_str().map(str::to_owned)
}

/// `Url::parse` and `Url::path_segments`, on Unix targets: the last segment as the
/// URL writes it. `None` for a text that is no URL and for a URL without segments.
#[verifier::external_body]
pub(crate) fn file_name_of_url(uri: &str) -> (r: Option<String>)
    ensures
        opt_view(r) == url_file_name(uri@),
{
    let url = Url::parse(uri).ok()?;
    let mut segments = url.path_segments()?;
    segments.next_back().map(str::to_owned)
}

/// The `file:` URL of an absolute path; other paths have none. The URL names the
/// path.
pub fn file_uri(path: &str) -> (r: Option<String>)
    ensures
        opt_view(r) == file_url(path@),
        r is Some <==> absolute(path@),
        r matches Some(u) ==> url_safe(path@) ==> (url_path(u@) matches Some(p) && path_key(p)
            == path_key(path@)),
        r matches Some(u) ==> url_safe(path@) && tidy(path@) ==> url_path(u@) == Some(path@),
{
    url_from_file_path(path)
}

/// The path that a `file:` URL names.
pub fn uri_to_path_string(uri: &str) -> (r: Option<String>)
    ensures
        opt_view(r) == url_path(uri@),
{
    url_to_file_path(uri)
}

} // verus!
