use vstd::prelude::*;
use crate::decimal::{spec_dec, u128_to_string};

verus! {

/// The index of the last occurrence of `c` in `s`, or -1 if absent.
pub open spec fn spec_last_index_of(s: Seq<char>, c: char) -> int
    decreases s.len(),
{
    if s.len() == 0 {
        -1
    } else if s.last() == c {
        s.len() - 1
    } else {
        spec_last_index_of(s.drop_last(), c)
    }
}

proof fn lemma_last_index_of_in_prefix(s: Seq<char>, i: int, c: char)
    requires
        0 <= i < s.len(),
        s[i] != c,
    ensures
        spec_last_index_of(s.take(i + 1), c) == spec_last_index_of(s.take(i), c),
{
    assert(s.take(i + 1).last() == s[i]);
    assert(s.take(i + 1).drop_last() =~= s.take(i));
}

pub proof fn lemma_last_index_of_bounds(s: Seq<char>, c: char)
    ensures
        -1 <= spec_last_index_of(s, c) < s.len(),
        spec_last_index_of(s, c) >= 0 ==> s[spec_last_index_of(s, c)] == c,
    decreases s.len(),
{
    if s.len() > 0 && s.last() != c {
        lemma_last_index_of_bounds(s.drop_last(), c);
    }
}

/// Finds the last occurrence of `c` in `s`, scanning from the end.
pub fn last_index_of(s: &str, c: char) -> (r: Option<usize>)
    ensures
        match r {
            Some(k) => k == spec_last_index_of(s@, c),
            None => spec_last_index_of(s@, c) == -1,
        },
{
    let n = s.unicode_len();
    proof {
        assert(s@.take(n as int) =~= s@);
    }
    let mut i: usize = n;
    while i > 0
        invariant
            i <= n,
            n == s@.len(),
            spec_last_index_of(s@, c) == spec_last_index_of(s@.take(i as int), c),
        decreases i,
    {
        let ch = s.get_char(i - 1);
        if ch == c {
            proof {
                assert(s@.take(i as int).last() == s@[i - 1]);
            }
            return Some(i - 1);
        }
        proof {
            lemma_last_index_of_in_prefix(s@, i - 1, c);
        }
        i = i - 1;
    }
    proof {
        assert(s@.take(0) =~= Seq::<char>::empty());
    }
    None
}

/// The file-name component of a path: everything after the last
/// separator, or the whole path if it has none.
pub open spec fn spec_file_name(path: Seq<char>) -> Seq<char> {
    path.subrange(spec_last_index_of(path, '/') + 1, path.len() as int)
}

/// The extension of a path: the suffix of its file-name component after
/// the last dot, where a leading dot marks a hidden name rather than an
/// extension. A name with no dot, or with nothing after it, has the
/// empty extension.
pub open spec fn spec_extension_of(path: Seq<char>) -> Seq<char> {
    let comp = spec_file_name(path);
    let d = spec_last_index_of(comp, '.');
    if d <= 0 {
        Seq::empty()
    } else {
        comp.subrange(d + 1, comp.len() as int)
    }
}

/// Returns the extension of `path` (possibly empty).
pub fn extension_of(path: &String) -> (r: String)
    ensures
        r@ == spec_extension_of(path@),
{
    let n = path.as_str().unicode_len();
    proof {
        lemma_last_index_of_bounds(path@, '/');
    }
    let start: usize = match last_index_of(path.as_str(), '/') {
        Some(k) => k + 1,
        None => 0,
    };
    let comp = path.as_str().substring_char(start, n);
    assert(comp@ == spec_file_name(path@));
    let m = comp.unicode_len();
    proof {
        lemma_last_index_of_bounds(comp@, '.');
    }
    match last_index_of(comp, '.') {
        Some(d) if d > 0 => {
            let r = String::from_str(comp.substring_char(d + 1, m));
            assert(r@ =~= spec_extension_of(path@));
            r
        },
        _ => {
            let r = String::new();
            assert(r@ =~= spec_extension_of(path@));
            r
        },
    }
}

/// The on-disk name of a stored file: the storage identifier, plus the
/// original file's extension when it has one.
pub open spec fn spec_stored_filename(id: Seq<char>, original: Seq<char>) -> Seq<char> {
    if spec_extension_of(original).len() == 0 {
        id
    } else {
        id + "."@ + spec_extension_of(original)
    }
}

/// Derives the on-disk filename for a stored file from its identifier
/// and the upload's original filename.
pub fn derive_stored_filename(file_id: &String, original: &String) -> (r: String)
    ensures
        r@ == spec_stored_filename(file_id@, original@),
{
    let ext = extension_of(original);
    if ext.as_str().unicode_len() == 0 {
        file_id.clone()
    } else {
        let mut r = file_id.clone();
        r.append(".");
        r.append(ext.as_str());
        r
    }
}

/// Whether a path carries the temp-artifact extension.
pub open spec fn spec_is_temp_artifact(path: Seq<char>) -> bool {
    spec_extension_of(path) == "tmp"@
}

/// Tests whether `path` names a temp artifact (its extension is `tmp`).
pub fn has_temp_extension(path: &String) -> (r: bool)
    ensures
        r == spec_is_temp_artifact(path@),
{
    let ext = extension_of(path);
    let t = String::from_str("tmp");
    ext.eq(&t)
}

/// The fields of `s` between occurrences of the separator `sep`: one
/// more field than there are separators, and empty fields where two
/// separators stand together.
pub open spec fn spec_fields(s: Seq<char>, sep: char) -> Seq<Seq<char>>
    decreases s.len(),
{
    if s.len() == 0 {
        seq![Seq::<char>::empty()]
    } else {
        let f = spec_fields(s.drop_last(), sep);
        if s.last() == sep {
            f.push(Seq::empty())
        } else {
            f.update(f.len() - 1, f.last().push(s.last()))
        }
    }
}

proof fn lemma_fields_len(s: Seq<char>, sep: char)
    ensures
        spec_fields(s, sep).len() >= 1,
    decreases s.len(),
{
    if s.len() > 0 {
        lemma_fields_len(s.drop_last(), sep);
    }
}

/// Splits `s` at `sep`, returning each field as an index range into `s`.
pub fn split_ranges(s: &str, sep: char) -> (r: Vec<(usize, usize)>)
    ensures
        r@.map_values(|p: (usize, usize)| s@.subrange(p.0 as int, p.1 as int)) == spec_fields(
            s@,
            sep,
        ),
        forall|t: int| 0 <= t < r@.len() ==> (#[trigger] r@[t]).0 <= r@[t].1 <= s@.len(),
{
    let n = s.unicode_len();
    let mut r: Vec<(usize, usize)> = Vec::new();
    let mut start: usize = 0;
    let mut i: usize = 0;
    proof {
        assert(s@.take(0) =~= Seq::<char>::empty());
        assert(r@.map_values(|p: (usize, usize)| s@.subrange(p.0 as int, p.1 as int)).push(
            s@.subrange(0, 0),
        ) =~~= spec_fields(s@.take(0), sep));
    }
    while i < n
        invariant
            start <= i <= n,
            n == s@.len(),
            r@.map_values(|p: (usize, usize)| s@.subrange(p.0 as int, p.1 as int)).push(
                s@.subrange(start as int, i as int),
            ) == spec_fields(s@.take(i as int), sep),
            forall|t: int| 0 <= t < r@.len() ==> (#[trigger] r@[t]).0 <= r@[t].1 <= i,
        decreases n - i,
    {
        proof {
            assert(s@.take(i + 1).drop_last() =~= s@.take(i as int));
            assert(s@.take(i + 1).last() == s@[i as int]);
        }
        let ghost rmap_pre = r@.map_values(
            |p: (usize, usize)| s@.subrange(p.0 as int, p.1 as int),
        );
        let c = s.get_char(i);
        if c == sep {
            r.push((start, i));
            proof {
                assert(r@.map_values(|p: (usize, usize)| s@.subrange(p.0 as int, p.1 as int))
                    =~~= rmap_pre.push(s@.subrange(start as int, i as int)));
                assert(r@.map_values(|p: (usize, usize)| s@.subrange(p.0 as int, p.1 as int)).push(
                    s@.subrange(i + 1, i + 1),
                ) =~~= spec_fields(s@.take(i + 1), sep));
            }
            start = i + 1;
        } else {
            proof {
                let f = spec_fields(s@.take(i as int), sep);
                assert(f.last() == s@.subrange(start as int, i as int));
                assert(f.last().push(s@[i as int]) =~= s@.subrange(start as int, i + 1));
                assert(f.update(f.len() - 1, s@.subrange(start as int, i + 1)) =~~= rmap_pre.push(
                    s@.subrange(start as int, i + 1),
                ));
            }
        }
        i = i + 1;
    }
    r.push((start, n));
    proof {
        assert(s@.take(n as int) =~= s@);
        assert(r@.map_values(|p: (usize, usize)| s@.subrange(p.0 as int, p.1 as int))
            =~~= spec_fields(s@, sep));
    }
    r
}

/// The whitespace that configuration entries are trimmed of.
pub open spec fn spec_is_space(c: char) -> bool {
    c == ' ' || c == '\t' || c == '\n' || c == '\r'
}

/// `s` without leading whitespace.
pub open spec fn spec_trim_start(s: Seq<char>) -> Seq<char>
    decreases s.len(),
{
    if s.len() > 0 && spec_is_space(s[0]) {
        spec_trim_start(s.drop_first())
    } else {
        s
    }
}

/// `s` without trailing whitespace.
pub open spec fn spec_trim_end(s: Seq<char>) -> Seq<char>
    decreases s.len(),
{
    if s.len() > 0 && spec_is_space(s.last()) {
        spec_trim_end(s.drop_last())
    } else {
        s
    }
}

/// `s` without leading and trailing whitespace.
pub open spec fn spec_trim(s: Seq<char>) -> Seq<char> {
    spec_trim_end(spec_trim_start(s))
}

fn is_space(c: char) -> (r: bool)
    ensures
        r == spec_is_space(c),
{
    c == ' ' || c == '\t' || c == '\n' || c == '\r'
}

/// Trims whitespace from both ends of the field `s[a..b]`, returning
/// the trimmed range.
pub fn trim_range(s: &str, a: usize, b: usize) -> (r: (usize, usize))
    requires
        a <= b <= s@.len(),
    ensures
        a <= r.0 <= r.1 <= b,
        s@.subrange(r.0 as int, r.1 as int) == spec_trim(s@.subrange(a as int, b as int)),
{
    let mut ts = a;
    while ts < b && is_space(s.get_char(ts))
        invariant
            a <= ts <= b <= s@.len(),
            spec_trim_start(s@.subrange(a as int, b as int)) == spec_trim_start(
                s@.subrange(ts as int, b as int),
            ),
        decreases b - ts,
    {
        proof {
            assert(s@.subrange(ts as int, b as int)[0] == s@[ts as int]);
            assert(s@.subrange(ts as int, b as int).drop_first() =~= s@.subrange(ts + 1, b as int));
        }
        ts = ts + 1;
    }
    proof {
        assert(spec_trim_start(s@.subrange(a as int, b as int)) == s@.subrange(
            ts as int,
            b as int,
        ));
    }
    let mut te = b;
    while te > ts && is_space(s.get_char(te - 1))
        invariant
            ts <= te <= b <= s@.len(),
            spec_trim_end(s@.subrange(ts as int, b as int)) == spec_trim_end(
                s@.subrange(ts as int, te as int),
            ),
        decreases te,
    {
        proof {
            assert(s@.subrange(ts as int, te as int).last() == s@[te - 1]);
            assert(s@.subrange(ts as int, te as int).drop_last() =~= s@.subrange(
                ts as int,
                te - 1,
            ));
        }
        te = te - 1;
    }
    proof {
        assert(spec_trim_end(s@.subrange(ts as int, b as int)) == s@.subrange(
            ts as int,
            te as int,
        ));
    }
    (ts, te)
}

/// The backing temp file of an upload session: under the chosen root's
/// temp subtree, in a per-user directory, named by the upload identifier.
pub open spec fn spec_temp_path(disk: Seq<char>, user_id: int, upload_id: int) -> Seq<char> {
    disk + "/temp/"@ + spec_dec(user_id) + "/"@ + spec_dec(upload_id) + ".tmp"@
}

/// Builds the temp-file path for an upload session.
pub fn temp_path_for(disk_path: &String, user_id: u128, upload_id: u128) -> (r: String)
    ensures
        r@ == spec_temp_path(disk_path@, user_id as int, upload_id as int),
{
    let mut r = disk_path.clone();
    r.append("/temp/");
    let u = u128_to_string(user_id);
    r.append(u.as_str());
    r.append("/");
    let s = u128_to_string(upload_id);
    r.append(s.as_str());
    r.append(".tmp");
    r
}

/// The per-user directory of permanent files under a storage root.
pub open spec fn spec_user_dir(disk: Seq<char>, user_id: int) -> Seq<char> {
    disk + "/users/"@ + spec_dec(user_id)
}

/// Builds the per-user directory path under a storage root.
pub fn user_dir_for(disk_path: &String, user_id: u128) -> (r: String)
    ensures
        r@ == spec_user_dir(disk_path@, user_id as int),
{
    let mut r = disk_path.clone();
    r.append("/users/");
    let u = u128_to_string(user_id);
    r.append(u.as_str());
    r
}

/// A component never contains the given character.
pub open spec fn spec_lacks_char(c: Seq<char>, sep: char) -> bool {
    forall|t: int| 0 <= t < c.len() ==> c[t] != sep
}

proof fn lemma_fields_no_sep(s: Seq<char>, sep: char)
    ensures
        forall|j: int|
            0 <= j < spec_fields(s, sep).len() ==> spec_lacks_char(
                #[trigger] spec_fields(s, sep)[j],
                sep,
            ),
    decreases s.len(),
{
    if s.len() == 0 {
    } else {
        lemma_fields_no_sep(s.drop_last(), sep);
        lemma_fields_len(s.drop_last(), sep);
        let f = spec_fields(s.drop_last(), sep);
        if s.last() == sep {
            assert forall|j: int| 0 <= j < spec_fields(s, sep).len()
                implies spec_lacks_char(#[trigger] spec_fields(s, sep)[j], sep) by {
                if j < f.len() {
                    assert(spec_fields(s, sep)[j] == f[j]);
                } else {
                    assert(spec_fields(s, sep)[j] =~= Seq::<char>::empty());
                }
            }
        } else {
            assert forall|j: int| 0 <= j < spec_fields(s, sep).len()
                implies spec_lacks_char(#[trigger] spec_fields(s, sep)[j], sep) by {
                if j == f.len() - 1 {
                    assert(spec_fields(s, sep)[j] == f.last().push(s.last()));
                    assert(spec_lacks_char(f.last(), sep));
                } else {
                    assert(spec_fields(s, sep)[j] == f[j]);
                }
            }
        }
    }
}

/// A path component that normalization keeps: nonempty and neither of
/// the two dot components.
pub open spec fn spec_keeps(c: Seq<char>) -> bool {
    c.len() > 0 && c != "."@ && c != ".."@
}

/// Resolves raw path fields lexically: empty fields and `.` disappear,
/// and `..` removes the component before it, when there is one.
pub open spec fn spec_resolve(fs: Seq<Seq<char>>) -> Seq<Seq<char>>
    decreases fs.len(),
{
    if fs.len() == 0 {
        Seq::empty()
    } else {
        let pre = spec_resolve(fs.drop_last());
        let c = fs.last();
        if c.len() == 0 || c == "."@ {
            pre
        } else if c == ".."@ {
            if pre.len() > 0 {
                pre.drop_last()
            } else {
                pre
            }
        } else {
            pre.push(c)
        }
    }
}

proof fn lemma_resolve_components(fs: Seq<Seq<char>>)
    requires
        forall|j: int| 0 <= j < fs.len() ==> spec_lacks_char(#[trigger] fs[j], '/'),
    ensures
        forall|j: int|
            0 <= j < spec_resolve(fs).len() ==> spec_keeps(#[trigger] spec_resolve(fs)[j])
                && spec_lacks_char(spec_resolve(fs)[j], '/'),
    decreases fs.len(),
{
    if fs.len() > 0 {
        assert(forall|j: int| 0 <= j < fs.len() - 1 ==> #[trigger] fs.drop_last()[j] == fs[j]);
        lemma_resolve_components(fs.drop_last());
        let pre = spec_resolve(fs.drop_last());
        let c = fs.last();
        assert(fs[fs.len() - 1] == c);
        if c.len() == 0 || c == "."@ {
        } else if c == ".."@ {
            assert forall|j: int| 0 <= j < spec_resolve(fs).len()
                implies spec_keeps(#[trigger] spec_resolve(fs)[j]) && spec_lacks_char(
                spec_resolve(fs)[j],
                '/',
            ) by {
                assert(spec_resolve(fs)[j] == pre[j]);
            }
        } else {
            assert forall|j: int| 0 <= j < spec_resolve(fs).len()
                implies spec_keeps(#[trigger] spec_resolve(fs)[j]) && spec_lacks_char(
                spec_resolve(fs)[j],
                '/',
            ) by {
                if j < pre.len() {
                    assert(spec_resolve(fs)[j] == pre[j]);
                } else {
                    assert(spec_resolve(fs)[j] == c);
                }
            }
        }
    }
}

/// Renders kept components as an absolute path, one separator before
/// each component.
pub open spec fn spec_render_inner(cs: Seq<Seq<char>>) -> Seq<char>
    decreases cs.len(),
{
    if cs.len() == 0 {
        Seq::empty()
    } else {
        spec_render_inner(cs.drop_last()) + "/"@ + cs.last()
    }
}

/// The rendering of a resolved component list; no components means the
/// root itself.
pub open spec fn spec_render(cs: Seq<Seq<char>>) -> Seq<char> {
    if cs.len() == 0 {
        "/"@
    } else {
        spec_render_inner(cs)
    }
}

/// The absolute form of `p`: itself when it is already absolute, else
/// the working directory joined with it.
pub open spec fn spec_absolute(p: Seq<char>, cwd: Seq<char>) -> Seq<char> {
    if p.len() > 0 && p[0] == '/' {
        p
    } else {
        cwd + "/"@ + p
    }
}

/// `s` with every backslash separator replaced by the canonical one.
pub open spec fn spec_unify_separators(s: Seq<char>) -> Seq<char>
    decreases s.len(),
{
    if s.len() == 0 {
        Seq::empty()
    } else {
        spec_unify_separators(s.drop_last()).push(
            if s.last() == '\\' {
                '/'
            } else {
                s.last()
            },
        )
    }
}

/// Whether `s` begins with the verbatim-path marker.
pub open spec fn spec_has_verbatim_prefix(s: Seq<char>) -> bool {
    s.len() >= 4 && s[0] == '\\' && s[1] == '\\' && s[2] == '?' && s[3] == '\\'
}

/// A path as plain text: a leading verbatim-path marker removed, and
/// every separator in the canonical form.
pub open spec fn spec_preclean(s: Seq<char>) -> Seq<char> {
    if spec_has_verbatim_prefix(s) {
        spec_unify_separators(s.subrange(4, s.len() as int))
    } else {
        spec_unify_separators(s)
    }
}

/// The one canonical lexical form of a path: verbatim markers and
/// foreign separators removed, made absolute against the working
/// directory, split at separators, with empty and dot components
/// resolved away, and rendered with single separators and no trailing
/// one.
pub open spec fn spec_normalize(p: Seq<char>, cwd: Seq<char>) -> Seq<char> {
    spec_render(spec_resolve(spec_fields(spec_absolute(spec_preclean(p), spec_preclean(cwd)), '/')))
}

fn unify_separators(s: &str) -> (r: String)
    ensures
        r@ == spec_unify_separators(s@),
{
    let n = s.unicode_len();
    let mut r = String::new();
    let mut i: usize = 0;
    proof {
        assert(s@.take(0) =~= Seq::<char>::empty());
        assert(r@ =~= spec_unify_separators(s@.take(0)));
    }
    while i < n
        invariant
            i <= n,
            n == s@.len(),
            r@ == spec_unify_separators(s@.take(i as int)),
        decreases n - i,
    {
        proof {
            assert(s@.take(i + 1).drop_last() =~= s@.take(i as int));
            assert(s@.take(i + 1).last() == s@[i as int]);
        }
        let c = s.get_char(i);
        if c == '\\' {
            r.append("/");
            proof {
                reveal_strlit("/");
                assert(r@ =~= spec_unify_separators(s@.take(i + 1)));
            }
        } else {
            r.append(s.substring_char(i, i + 1));
            proof {
                assert(s@.subrange(i as int, i + 1) =~= seq![s@[i as int]]);
                assert(r@ =~= spec_unify_separators(s@.take(i + 1)));
            }
        }
        i = i + 1;
    }
    proof {
        assert(s@.take(n as int) =~= s@);
    }
    r
}

fn preclean(s: &str) -> (r: String)
    ensures
        r@ == spec_preclean(s@),
{
    let n = s.unicode_len();
    if n >= 4 && s.get_char(0) == '\\' && s.get_char(1) == '\\' && s.get_char(2) == '?'
        && s.get_char(3) == '\\' {
        unify_separators(s.substring_char(4, n))
    } else {
        unify_separators(s)
    }
}

proof fn lemma_unify_no_backslash(s: Seq<char>)
    ensures
        spec_unify_separators(s).len() == s.len(),
        forall|i: int|
            0 <= i < s.len() ==> #[trigger] spec_unify_separators(s)[i] != '\\',
    decreases s.len(),
{
    if s.len() > 0 {
        lemma_unify_no_backslash(s.drop_last());
    }
}

proof fn lemma_unify_identity(s: Seq<char>)
    requires
        forall|i: int| 0 <= i < s.len() ==> s[i] != '\\',
    ensures
        spec_unify_separators(s) == s,
    decreases s.len(),
{
    if s.len() > 0 {
        assert(forall|i: int| 0 <= i < s.len() - 1 ==> #[trigger] s.drop_last()[i] == s[i]);
        lemma_unify_identity(s.drop_last());
        assert(s.last() == s[s.len() - 1]);
        assert(spec_unify_separators(s) =~= s);
    }
}

proof fn lemma_preclean_identity(s: Seq<char>)
    requires
        forall|i: int| 0 <= i < s.len() ==> s[i] != '\\',
    ensures
        spec_preclean(s) == s,
{
    assert(!spec_has_verbatim_prefix(s));
    lemma_unify_identity(s);
}

proof fn lemma_fields_exclude(s: Seq<char>, sep: char, c: char)
    requires
        forall|t: int| 0 <= t < s.len() ==> s[t] != c,
    ensures
        forall|j: int|
            0 <= j < spec_fields(s, sep).len() ==> spec_lacks_char(#[trigger] spec_fields(s, sep)[j], c),
    decreases s.len(),
{
    if s.len() == 0 {
    } else {
        assert(forall|t: int| 0 <= t < s.len() - 1 ==> #[trigger] s.drop_last()[t] == s[t]);
        lemma_fields_exclude(s.drop_last(), sep, c);
        lemma_fields_len(s.drop_last(), sep);
        let f = spec_fields(s.drop_last(), sep);
        assert(s.last() == s[s.len() - 1]);
        if s.last() == sep {
            assert forall|j: int| 0 <= j < spec_fields(s, sep).len()
                implies spec_lacks_char(#[trigger] spec_fields(s, sep)[j], c) by {
                if j < f.len() {
                    assert(spec_fields(s, sep)[j] == f[j]);
                } else {
                    assert(spec_fields(s, sep)[j] =~= Seq::<char>::empty());
                }
            }
        } else {
            assert forall|j: int| 0 <= j < spec_fields(s, sep).len()
                implies spec_lacks_char(#[trigger] spec_fields(s, sep)[j], c) by {
                if j == f.len() - 1 {
                    assert(spec_fields(s, sep)[j] == f.last().push(s.last()));
                    assert(spec_lacks_char(f.last(), c));
                } else {
                    assert(spec_fields(s, sep)[j] == f[j]);
                }
            }
        }
    }
}

proof fn lemma_resolve_exclude(fs: Seq<Seq<char>>, c: char)
    requires
        forall|j: int| 0 <= j < fs.len() ==> spec_lacks_char(#[trigger] fs[j], c),
    ensures
        forall|j: int|
            0 <= j < spec_resolve(fs).len() ==> spec_lacks_char(#[trigger] spec_resolve(fs)[j], c),
    decreases fs.len(),
{
    if fs.len() > 0 {
        assert(forall|j: int| 0 <= j < fs.len() - 1 ==> #[trigger] fs.drop_last()[j] == fs[j]);
        lemma_resolve_exclude(fs.drop_last(), c);
        let pre = spec_resolve(fs.drop_last());
        let last = fs.last();
        assert(fs[fs.len() - 1] == last);
        assert forall|j: int| 0 <= j < spec_resolve(fs).len()
            implies spec_lacks_char(#[trigger] spec_resolve(fs)[j], c) by {
            if last.len() == 0 || last == "."@ {
                assert(spec_resolve(fs)[j] == pre[j]);
            } else if last == ".."@ {
                assert(spec_resolve(fs)[j] == pre[j]);
            } else {
                if j < pre.len() {
                    assert(spec_resolve(fs)[j] == pre[j]);
                } else {
                    assert(spec_resolve(fs)[j] == last);
                }
            }
        }
    }
}

proof fn lemma_render_exclude(cs: Seq<Seq<char>>, c: char)
    requires
        c != '/',
        forall|j: int| 0 <= j < cs.len() ==> spec_lacks_char(#[trigger] cs[j], c),
    ensures
        forall|i: int|
            0 <= i < spec_render_inner(cs).len() ==> #[trigger] spec_render_inner(cs)[i] != c,
    decreases cs.len(),
{
    reveal_strlit("/");
    if cs.len() > 0 {
        assert(forall|j: int| 0 <= j < cs.len() - 1 ==> #[trigger] cs.drop_last()[j] == cs[j]);
        lemma_render_exclude(cs.drop_last(), c);
        assert(cs[cs.len() - 1] == cs.last());
        assert(spec_lacks_char(cs.last(), c));
        assert forall|i: int| 0 <= i < spec_render_inner(cs).len()
            implies #[trigger] spec_render_inner(cs)[i] != c by {
            let pre = spec_render_inner(cs.drop_last());
            if i < pre.len() {
                assert(spec_render_inner(cs)[i] == pre[i]);
            } else if i == pre.len() {
                assert(spec_render_inner(cs)[i] == '/');
            } else {
                assert(spec_render_inner(cs)[i] == cs.last()[i - pre.len() - 1]);
            }
        }
    }
}

proof fn lemma_fields_append_component(x: Seq<char>, c: Seq<char>)
    requires
        spec_lacks_char(c, '/'),
    ensures
        spec_fields(x + seq!['/'] + c, '/') == spec_fields(x, '/').push(c),
    decreases c.len(),
{
    reveal_strlit("/");
    if c.len() == 0 {
        assert((x + seq!['/'] + c).drop_last() =~= x);
        assert((x + seq!['/'] + c).last() == '/');
        assert(spec_fields(x + seq!['/'] + c, '/') =~~= spec_fields(x, '/').push(c));
    } else {
        let c0 = c.drop_last();
        assert(spec_lacks_char(c0, '/'));
        lemma_fields_append_component(x, c0);
        lemma_fields_len(x, '/');
        assert((x + seq!['/'] + c).drop_last() =~= x + seq!['/'] + c0);
        assert((x + seq!['/'] + c).last() == c.last());
        assert(c.last() != '/');
        let f0 = spec_fields(x + seq!['/'] + c0, '/');
        assert(f0 == spec_fields(x, '/').push(c0));
        assert(f0.last() == c0);
        assert(c0.push(c.last()) =~= c);
        assert(spec_fields(x + seq!['/'] + c, '/') == f0.update(f0.len() - 1, c));
        assert(f0.update(f0.len() - 1, c) =~~= spec_fields(x, '/').push(c));
    }
}

proof fn lemma_render_starts_slash(cs: Seq<Seq<char>>)
    requires
        cs.len() > 0,
    ensures
        spec_render_inner(cs).len() > 0,
        spec_render_inner(cs)[0] == '/',
    decreases cs.len(),
{
    reveal_strlit("/");
    if cs.len() == 1 {
        assert(spec_render_inner(cs.drop_last()).len() == 0);
        assert(spec_render_inner(cs)[0] == "/"@[0]);
    } else {
        lemma_render_starts_slash(cs.drop_last());
        assert(spec_render_inner(cs)[0] == spec_render_inner(cs.drop_last())[0]);
    }
}

proof fn lemma_fields_of_render(cs: Seq<Seq<char>>)
    requires
        forall|j: int| 0 <= j < cs.len() ==> spec_lacks_char(#[trigger] cs[j], '/'),
    ensures
        spec_fields(spec_render_inner(cs), '/') == seq![Seq::<char>::empty()] + cs,
    decreases cs.len(),
{
    reveal_strlit("/");
    if cs.len() == 0 {
        assert(spec_render_inner(cs).len() == 0);
        assert(spec_fields(spec_render_inner(cs), '/') =~~= seq![Seq::<char>::empty()] + cs);
    } else {
        let cs0 = cs.drop_last();
        assert(forall|j: int| 0 <= j < cs0.len() ==> #[trigger] cs0[j] == cs[j]);
        lemma_fields_of_render(cs0);
        assert(spec_render_inner(cs) =~= spec_render_inner(cs0) + seq!['/'] + cs.last()) by {
            assert("/"@ =~= seq!['/']);
        }
        assert(cs[cs.len() - 1] == cs.last());
        lemma_fields_append_component(spec_render_inner(cs0), cs.last());
        assert((seq![Seq::<char>::empty()] + cs0).push(cs.last()) =~~= seq![Seq::<char>::empty()]
            + cs);
    }
}

proof fn lemma_resolve_after_leading_empty(cs: Seq<Seq<char>>)
    requires
        forall|j: int| 0 <= j < cs.len() ==> spec_keeps(#[trigger] cs[j]),
    ensures
        spec_resolve(seq![Seq::<char>::empty()] + cs) == cs,
    decreases cs.len(),
{
    let e = seq![Seq::<char>::empty()];
    if cs.len() == 0 {
        assert((e + cs).len() == 1);
        assert((e + cs).last().len() == 0);
        assert((e + cs).drop_last() =~~= Seq::<Seq<char>>::empty());
        assert(spec_resolve((e + cs).drop_last()).len() == 0);
        assert(spec_resolve(e + cs) == spec_resolve((e + cs).drop_last()));
        assert(spec_resolve(e + cs) =~~= cs);
    } else {
        let cs0 = cs.drop_last();
        assert(forall|j: int| 0 <= j < cs0.len() ==> #[trigger] cs0[j] == cs[j]);
        lemma_resolve_after_leading_empty(cs0);
        assert((e + cs).drop_last() =~~= e + cs0);
        assert((e + cs).last() == cs.last());
        assert(cs[cs.len() - 1] == cs.last());
        assert(spec_keeps(cs.last()));
        assert(spec_resolve(e + cs) == spec_resolve(e + cs0).push(cs.last()));
        assert(cs0.push(cs.last()) =~~= cs);
    }
}

/// Law: lexical normalization is idempotent — normalizing an already
/// normalized path returns it unchanged, whatever working directory the
/// second pass is given.
pub proof fn lemma_normalize_idempotent(p: Seq<char>, cwd: Seq<char>, cwd2: Seq<char>)
    ensures
        spec_normalize(spec_normalize(p, cwd), cwd2) == spec_normalize(p, cwd),
{
    reveal_strlit("/");
    let pp = spec_preclean(p);
    let pc = spec_preclean(cwd);
    let full = spec_absolute(pp, pc);
    assert(forall|i: int| 0 <= i < pp.len() ==> pp[i] != '\\') by {
        if spec_has_verbatim_prefix(p) {
            lemma_unify_no_backslash(p.subrange(4, p.len() as int));
        } else {
            lemma_unify_no_backslash(p);
        }
    }
    assert(forall|i: int| 0 <= i < pc.len() ==> pc[i] != '\\') by {
        if spec_has_verbatim_prefix(cwd) {
            lemma_unify_no_backslash(cwd.subrange(4, cwd.len() as int));
        } else {
            lemma_unify_no_backslash(cwd);
        }
    }
    assert(forall|i: int| 0 <= i < full.len() ==> #[trigger] full[i] != '\\');
    lemma_fields_no_sep(full, '/');
    lemma_fields_exclude(full, '/', '\\');
    let fs = spec_fields(full, '/');
    lemma_resolve_components(fs);
    lemma_resolve_exclude(fs, '\\');
    let cs = spec_resolve(fs);
    let r = spec_render(cs);
    if cs.len() > 0 {
        lemma_render_exclude(cs, '\\');
    }
    assert(forall|i: int| 0 <= i < r.len() ==> #[trigger] r[i] != '\\');
    lemma_preclean_identity(r);
    if cs.len() == 0 {
        assert(r =~= seq!['/']);
        assert(r[0] == '/');
        assert(spec_absolute(r, spec_preclean(cwd2)) == r);
        assert(r.len() == 1 && r.last() == '/');
        assert(r.drop_last() =~= Seq::<char>::empty());
        assert(spec_fields(r.drop_last(), '/') =~~= seq![Seq::<char>::empty()]);
        let f2 = spec_fields(r, '/');
        assert(f2 =~~= seq![Seq::<char>::empty(), Seq::<char>::empty()]);
        let e1 = seq![Seq::<char>::empty()];
        assert(f2.last().len() == 0);
        assert(f2.drop_last() =~~= e1);
        assert(e1.last().len() == 0);
        assert(e1.drop_last() =~~= Seq::<Seq<char>>::empty());
        assert(spec_resolve(e1.drop_last()).len() == 0);
        assert(spec_resolve(e1).len() == 0);
        assert(spec_resolve(f2.drop_last()).len() == 0);
        assert(spec_resolve(f2) == spec_resolve(f2.drop_last()));
        assert(spec_resolve(f2).len() == 0);
        assert(spec_normalize(r, cwd2) == r);
    } else {
        lemma_render_starts_slash(cs);
        assert(spec_absolute(r, spec_preclean(cwd2)) == r);
        lemma_fields_of_render(cs);
        lemma_resolve_after_leading_empty(cs);
        assert(spec_resolve(spec_fields(r, '/')) == cs);
    }
}

fn starts_with_slash(s: &str) -> (r: bool)
    ensures
        r == (s@.len() > 0 && s@[0] == '/'),
{
    if s.unicode_len() == 0 {
        false
    } else {
        s.get_char(0) == '/'
    }
}

/// Normalizes a path lexically: strips a verbatim-path marker, brings
/// every separator to the canonical form, resolves the path against the
/// working directory when relative, collapses repeated separators,
/// removes dot components, applies parent components, and never ends in
/// a separator. Purely textual — the filesystem is not consulted — so
/// it works for paths that do not exist yet.
pub fn normalize(path: &String, cwd: &String) -> (r: String)
    ensures
        r@ == spec_normalize(path@, cwd@),
{
    let p2 = preclean(path.as_str());
    let full: String = if starts_with_slash(p2.as_str()) {
        p2
    } else {
        let mut f = preclean(cwd.as_str());
        f.append("/");
        f.append(p2.as_str());
        f
    };
    assert(full@ == spec_absolute(spec_preclean(path@), spec_preclean(cwd@)));
    let ranges = split_ranges(full.as_str(), '/');
    let ghost fs = spec_fields(full@, '/');
    let n = ranges.len();
    let mut stack: Vec<(usize, usize)> = Vec::new();
    let mut i: usize = 0;
    proof {
        assert(fs.take(0) =~~= Seq::<Seq<char>>::empty());
    }
    while i < n
        invariant
            i <= n,
            n == ranges@.len(),
            fs == spec_fields(full@, '/'),
            n == fs.len(),
            ranges@.map_values(|q: (usize, usize)| full@.subrange(q.0 as int, q.1 as int)) == fs,
            forall|t: int|
                0 <= t < ranges@.len() ==> (#[trigger] ranges@[t]).0 <= ranges@[t].1
                    <= full@.len(),
            forall|t: int|
                0 <= t < stack@.len() ==> (#[trigger] stack@[t]).0 <= stack@[t].1 <= full@.len(),
            stack@.map_values(|q: (usize, usize)| full@.subrange(q.0 as int, q.1 as int))
                == spec_resolve(fs.take(i as int)),
        decreases n - i,
    {
        proof {
            assert(fs.take(i + 1).drop_last() =~~= fs.take(i as int));
            assert(fs.take(i + 1).last() == fs[i as int]);
            assert(fs[i as int] == full@.subrange(
                ranges@[i as int].0 as int,
                ranges@[i as int].1 as int,
            ));
        }
        let (a, b) = (ranges[i].0, ranges[i].1);
        let ghost c = full@.subrange(a as int, b as int);
        let ghost pre = stack@.map_values(
            |q: (usize, usize)| full@.subrange(q.0 as int, q.1 as int),
        );
        if b == a {
            proof {
                assert(c.len() == 0);
            }
        } else if b - a == 1 && full.as_str().get_char(a) == '.' {
            proof {
                reveal_strlit(".");
                assert(c =~= "."@);
            }
        } else if b - a == 2 && full.as_str().get_char(a) == '.' && full.as_str().get_char(a + 1)
            == '.' {
            proof {
                reveal_strlit(".");
                reveal_strlit("..");
                assert(c =~= ".."@);
                assert(c != "."@);
            }
            if stack.len() > 0 {
                let _ = stack.pop();
                proof {
                    assert(stack@.map_values(
                        |q: (usize, usize)| full@.subrange(q.0 as int, q.1 as int),
                    ) =~~= pre.drop_last());
                }
            }
        } else {
            proof {
                reveal_strlit(".");
                reveal_strlit("..");
                assert(c.len() > 0);
                if c.len() == 1 {
                    assert(c[0] != '.');
                    assert(c != "."@);
                }
                if c.len() == 2 {
                    assert(c[0] != '.' || c[1] != '.');
                    assert(c != ".."@);
                }
                assert(c != "."@ && c != ".."@);
            }
            stack.push((a, b));
            proof {
                assert(stack@.map_values(
                    |q: (usize, usize)| full@.subrange(q.0 as int, q.1 as int),
                ) =~~= pre.push(c));
            }
        }
        i = i + 1;
    }
    proof {
        assert(fs.take(n as int) =~~= fs);
    }
    let ghost cs = spec_resolve(fs);
    let m = stack.len();
    if m == 0 {
        let r = String::from_str("/");
        proof {
            assert(cs.len() == 0);
            assert(r@ == spec_normalize(path@, cwd@));
        }
        return r;
    }
    let mut s = String::new();
    let mut j: usize = 0;
    proof {
        assert(cs.take(0) =~~= Seq::<Seq<char>>::empty());
        assert(s@ =~= spec_render_inner(cs.take(0)));
    }
    while j < m
        invariant
            j <= m,
            m == stack@.len(),
            cs == spec_resolve(spec_fields(full@, '/')),
            m == cs.len(),
            stack@.map_values(|q: (usize, usize)| full@.subrange(q.0 as int, q.1 as int)) == cs,
            forall|t: int|
                0 <= t < stack@.len() ==> (#[trigger] stack@[t]).0 <= stack@[t].1 <= full@.len(),
            s@ == spec_render_inner(cs.take(j as int)),
        decreases m - j,
    {
        proof {
            assert(cs.take(j + 1).drop_last() =~~= cs.take(j as int));
            assert(cs.take(j + 1).last() == cs[j as int]);
            assert(cs[j as int] == full@.subrange(
                stack@[j as int].0 as int,
                stack@[j as int].1 as int,
            ));
        }
        let (a, b) = (stack[j].0, stack[j].1);
        s.append("/");
        s.append(full.as_str().substring_char(a, b));
        j = j + 1;
    }
    proof {
        assert(cs.take(m as int) =~~= cs);
        assert(cs.len() > 0);
    }
    s
}

/// Law: the executable normalizer is idempotent on its own output.
pub proof fn lemma_normal_form_is_fixed_point(p: Seq<char>, cwd: Seq<char>)
    ensures
        forall|w: Seq<char>| #[trigger] spec_normalize(spec_normalize(p, cwd), w)
            == spec_normalize(p, cwd),
{
    assert forall|w: Seq<char>| #[trigger] spec_normalize(spec_normalize(p, cwd), w)
        == spec_normalize(p, cwd) by {
        lemma_normalize_idempotent(p, cwd, w);
    }
}

/// The full path of a file inside a directory.
pub open spec fn spec_joined(dir: Seq<char>, name: Seq<char>) -> Seq<char> {
    dir + "/"@ + name
}

/// Joins a directory path and a file name with a separator.
pub fn join_path(dir: &String, name: &String) -> (r: String)
    ensures
        r@ == spec_joined(dir@, name@),
{
    let mut r = dir.clone();
    r.append("/");
    r.append(name.as_str());
    r
}

} // verus!
