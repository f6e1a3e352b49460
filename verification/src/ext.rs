//! Extension filtering: case-insensitive, exact comparison of a file
//! path's trailing extension against an allow-list.

use vstd::prelude::*;

verus! {

/// Code point of `c` with ASCII upper-case letters folded to lower case.
pub open spec fn lower_code(c: char) -> int {
    if 65 <= c as int && c as int <= 90 {
        c as int + 32
    } else {
        c as int
    }
}

/// Two characters are equal up to ASCII case.
pub open spec fn chars_eqi(a: char, b: char) -> bool {
    lower_code(a) == lower_code(b)
}

/// Two character sequences are equal up to ASCII case.
pub open spec fn seq_eqi(a: Seq<char>, b: Seq<char>) -> bool {
    &&& a.len() == b.len()
    &&& forall|i: int| 0 <= i < a.len() ==> chars_eqi(a[i], b[i])
}

/// Compare two strings for equality ignoring ASCII case.
pub fn str_eqi(a: &str, b: &str) -> (r: bool)
    ensures
        r == seq_eqi(a@, b@),
{
    let alen = a.unicode_len();
    let blen = b.unicode_len();
    if alen != blen {
        return false;
    }
    let mut i: usize = 0;
    while i < alen
        invariant
            alen == a@.len(),
            alen == b@.len(),
            0 <= i <= alen,
            forall|j: int| 0 <= j < i ==> chars_eqi(a@[j], b@[j]),
        decreases alen - i,
    {
        let ca = a.get_char(i);
        let cb = b.get_char(i);
        let xa = ca as u32;
        let xb = cb as u32;
        let la = if 65 <= xa && xa <= 90 { xa + 32 } else { xa };
        let lb = if 65 <= xb && xb <= 90 { xb + 32 } else { xb };
        if la != lb {
            return false;
        }
        i = i + 1;
    }
    true
}

/// The file name of a path: everything after the last `/`.
pub open spec fn file_name_of(p: Seq<char>) -> Seq<char>
    decreases p.len(),
{
    if p.len() == 0 {
        p
    } else if p.last() == '/' {
        Seq::empty()
    } else {
        file_name_of(p.drop_last()).push(p.last())
    }
}

/// Everything after the last `.` of a name, or `None` if it has no dot.
pub open spec fn ext_after_last_dot(n: Seq<char>) -> Option<Seq<char>>
    decreases n.len(),
{
    if n.len() == 0 {
        None
    } else if n.last() == '.' {
        Some(Seq::<char>::empty())
    } else {
        match ext_after_last_dot(n.drop_last()) {
            Some(e) => Some(e.push(n.last())),
            None => None,
        }
    }
}

/// The extension of a path: the text after the last dot of its file
/// name.  A name without a dot has none.
pub open spec fn spec_ext_of(p: Seq<char>) -> Option<Seq<char>> {
    ext_after_last_dot(file_name_of(p))
}

/// Whether a path's extension stands in the allow-list, compared
/// case-insensitively and exactly; a path without an extension never
/// matches.
pub open spec fn spec_matches(p: Seq<char>, exts: Seq<String>) -> bool {
    match spec_ext_of(p) {
        Some(e) => exists|j: int| 0 <= j < exts.len() && seq_eqi(e, exts[j]@),
        None => false,
    }
}

/// A cut `k` with a slash just before it and none after marks the file name.
proof fn lemma_file_name_at(p: Seq<char>, k: int)
    requires
        0 <= k <= p.len(),
        k > 0 ==> p[k - 1] == '/',
        forall|x: int| k <= x < p.len() ==> p[x] != '/',
    ensures
        file_name_of(p) == p.subrange(k, p.len() as int),
    decreases p.len(),
{
    if p.len() == 0 {
        assert(p.subrange(0, 0) =~= p);
    } else if k == p.len() {
        assert(p.subrange(k, p.len() as int) =~= Seq::<char>::empty());
    } else {
        assert(p.last() != '/');
        lemma_file_name_at(p.drop_last(), k);
        assert(p.subrange(k, p.len() as int) =~= p.drop_last().subrange(
            k,
            p.len() - 1,
        ).push(p.last()));
    }
}

/// A cut `k` with a dot just before it and none after marks the extension.
proof fn lemma_ext_dot_at(n: Seq<char>, k: int)
    requires
        0 <= k <= n.len(),
        k > 0 ==> n[k - 1] == '.',
        forall|x: int| k <= x < n.len() ==> n[x] != '.',
    ensures
        ext_after_last_dot(n) == if k > 0 {
            Some(n.subrange(k, n.len() as int))
        } else {
            Option::<Seq<char>>::None
        },
    decreases n.len(),
{
    if n.len() == 0 {
    } else if k == n.len() {
        if k > 0 {
            assert(n.subrange(k, n.len() as int) =~= Seq::<char>::empty());
        }
    } else {
        assert(n.last() != '.');
        lemma_ext_dot_at(n.drop_last(), k);
        if k > 0 {
            assert(n.subrange(k, n.len() as int) =~= n.drop_last().subrange(
                k,
                n.len() - 1,
            ).push(n.last()));
        }
    }
}

/// The extension of `path`, if it has one.
pub fn extension_of(path: &str) -> (r: Option<String>)
    ensures
        match r {
            Some(e) => spec_ext_of(path@) == Some(e@),
            None => spec_ext_of(path@) is None,
        },
{
    let n = path.unicode_len();
    // the file name starts after the last slash
    let mut ns: usize = n;
    while ns > 0 && path.get_char(ns - 1) != '/'
        invariant
            n == path@.len(),
            0 <= ns <= n,
            forall|x: int| ns <= x < n ==> path@[x] != '/',
        decreases ns,
    {
        ns = ns - 1;
    }
    proof {
        lemma_file_name_at(path@, ns as int);
    }
    let ghost name = file_name_of(path@);
    // the extension starts after the last dot of the file name
    let mut d: usize = n;
    while d > ns && path.get_char(d - 1) != '.'
        invariant
            n == path@.len(),
            ns <= d <= n,
            forall|x: int| d <= x < n ==> path@[x] != '.',
        decreases d,
    {
        d = d - 1;
    }
    proof {
        assert(name =~= path@.subrange(ns as int, n as int));
        assert(forall|x: int|
            d - ns <= x < name.len() ==> name[x] == path@[ns + x] && path@[ns + x] != '.');
        if d > ns {
            assert(name[d - ns - 1] == path@[d - 1]);
        }
        lemma_ext_dot_at(name, d - ns);
    }
    if d > ns {
        let e = path.substring_char(d, n).to_owned();
        proof {
            assert(e@ =~= name.subrange(d - ns, name.len() as int));
        }
        Some(e)
    } else {
        None
    }
}

/// Decide whether `path` is to be processed, given the allow-list of
/// extensions.  Case-insensitive and exact; a path with no extension is
/// never processed, whatever the list holds.
pub fn matches_extension(path: &str, extensions: &Vec<String>) -> (r: bool)
    ensures
        r == spec_matches(path@, extensions@),
{
    let ext = extension_of(path);
    match ext {
        Some(e) => {
            let m = extensions.len();
            let mut j: usize = 0;
            while j < m
                invariant
                    m == extensions@.len(),
                    0 <= j <= m,
                    spec_ext_of(path@) == Some(e@),
                    forall|x: int| 0 <= x < j ==> !seq_eqi(e@, extensions@[x]@),
                decreases m - j,
            {
                if str_eqi(e.as_str(), extensions[j].as_str()) {
                    return true;
                }
                j = j + 1;
            }
            false
        },
        None => false,
    }
}

} // verus!
