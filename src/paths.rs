use vstd::prelude::*;

verus! {

/// The path separator: a forward slash.
pub open spec fn is_sep(c: char) -> bool {
    c == '/'
}

/// The segments of a relative path, split at every separator.
pub open spec fn split_path(p: Seq<char>) -> Seq<Seq<char>>
    decreases p.len(),
{
    if p.len() == 0 {
        seq![Seq::empty()]
    } else {
        let r = split_path(p.drop_last());
        if is_sep(p.last()) {
            r.push(Seq::empty())
        } else {
            r.update(r.len() - 1, r.last().push(p.last()))
        }
    }
}

pub proof fn lemma_split_path_nonempty(p: Seq<char>)
    ensures
        split_path(p).len() >= 1,
    decreases p.len(),
{
    if p.len() > 0 {
        lemma_split_path_nonempty(p.drop_last());
    }
}

/// `name` under the directory `prefix` (the root when `prefix` is empty).
pub open spec fn join(prefix: Seq<char>, name: Seq<char>) -> Seq<char> {
    if prefix.len() == 0 {
        name
    } else {
        prefix + seq!['/'] + name
    }
}

/// Position of the last `/` in `p`.
pub open spec fn last_slash(p: Seq<char>) -> Option<int>
    decreases p.len(),
{
    if p.len() == 0 {
        None
    } else if p.last() == '/' {
        Some(p.len() - 1)
    } else {
        last_slash(p.drop_last())
    }
}

pub proof fn lemma_last_slash_bounds(p: Seq<char>)
    ensures
        last_slash(p) matches Some(i) ==> 0 <= i < p.len() && p[i] == '/',
    decreases p.len(),
{
    if p.len() > 0 && p.last() != '/' {
        lemma_last_slash_bounds(p.drop_last());
    }
}

/// Splits `path` into its segments.
pub fn split_segments(path: &str) -> (r: Vec<String>)
    ensures
        crate::tree::string_views(r@) == split_path(path@),
{
    let n = path.unicode_len();
    let mut segs: Vec<String> = Vec::new();
    let mut start: usize = 0;
    let mut i: usize = 0;
    assert(path@.subrange(0, 0) =~= Seq::<char>::empty());
    assert(crate::tree::string_views(segs@) =~= Seq::<Seq<char>>::empty());
    assert(crate::tree::string_views(segs@).push(path@.subrange(0, 0)) =~= seq![Seq::<char>::empty()]);
    while i < n
        invariant
            n == path@.len(),
            start <= i <= n,
            crate::tree::string_views(segs@).push(path@.subrange(start as int, i as int)) == split_path(
                path@.subrange(0, i as int),
            ),
        decreases n - i,
    {
        let c = path.get_char(i);
        let ghost before = path@.subrange(0, i as int);
        let ghost after = path@.subrange(0, i + 1);
        assert(after.drop_last() =~= before);
        assert(after.last() == c);
        if c == '/' {
            let seg = path.substring_char(start, i).to_owned();
            segs.push(seg);
            assert(crate::tree::string_views(segs@) =~= crate::tree::string_views(segs@.drop_last()).push(
                path@.subrange(start as int, i as int),
            ));
            start = i + 1;
            assert(path@.subrange(start as int, i + 1) =~= Seq::<char>::empty());
        } else {
            assert(path@.subrange(start as int, i as int).push(c) =~= path@.subrange(
                start as int,
                i + 1,
            ));
            assert(crate::tree::string_views(segs@).push(path@.subrange(start as int, i + 1))
                =~= crate::tree::string_views(segs@).push(
                path@.subrange(start as int, i as int),
            ).update(
                crate::tree::string_views(segs@).len() as int,
                path@.subrange(start as int, i + 1),
            ));
        }
        i = i + 1;
    }
    let last = path.substring_char(start, n).to_owned();
    segs.push(last);
    assert(path@.subrange(0, n as int) =~= path@);
    assert(crate::tree::string_views(segs@) =~= crate::tree::string_views(segs@.drop_last()).push(
        path@.subrange(start as int, n as int),
    ));
    segs
}

/// Finds the last `/` of `path`.
fn rfind_slash(path: &str) -> (r: Option<usize>)
    ensures
        r matches Some(i) ==> last_slash(path@) == Some(i as int),
        r is None ==> last_slash(path@) is None,
{
    let mut i: usize = path.unicode_len();
    assert(path@.subrange(0, i as int) =~= path@);
    while i > 0
        invariant
            i <= path@.len(),
            last_slash(path@) == last_slash(path@.subrange(0, i as int)),
        decreases i,
    {
        if path.get_char(i - 1) == '/' {
            return Some(i - 1);
        }
        assert(path@.subrange(0, i as int).drop_last() =~= path@.subrange(0, i - 1));
        i = i - 1;
    }
    None
}

/// The part of `path` before its last `/`, if it has one.
pub fn get_dirname(path: &str) -> (r: Option<&str>)
    ensures
        match last_slash(path@) {
            Some(i) => r matches Some(d) && d@ == path@.subrange(0, i),
            None => r is None,
        },
{
    proof {
        lemma_last_slash_bounds(path@);
    }
    match rfind_slash(path) {
        Some(pos) => Some(path.substring_char(0, pos)),
        None => None,
    }
}

/// The part of `path` after its last `/`, or the whole path if it has none.
pub fn get_basename(path: &str) -> (r: &str)
    ensures
        match last_slash(path@) {
            Some(i) => r@ == path@.subrange(i + 1, path@.len() as int),
            None => r@ == path@,
        },
{
    proof {
        lemma_last_slash_bounds(path@);
    }
    let n = path.unicode_len();
    match rfind_slash(path) {
        Some(pos) => path.substring_char(pos + 1, n),
        None => path,
    }
}

/// Whether `p` is one of the paths in `v`.
pub fn contains_path(v: &Vec<String>, p: &String) -> (r: bool)
    ensures
        r == crate::tree::string_views(v@).contains(p@),
{
    let mut i: usize = 0;
    while i < v.len()
        invariant
            i <= v@.len(),
            forall|j: int| 0 <= j < i ==> v@[j]@ != p@,
        decreases v@.len() - i,
    {
        if v[i] == *p {
            assert(crate::tree::string_views(v@)[i as int] == p@);
            return true;
        }
        i = i + 1;
    }
    assert forall|j: int| 0 <= j < crate::tree::string_views(v@).len() implies crate::tree::string_views(v@)[j] != p@ by {
        assert(crate::tree::string_views(v@)[j] == v@[j]@);
    }
    false
}

/// Joins `name` under `prefix` with a `/`, or returns `name` at the root.
pub fn join_path(prefix: &String, name: &String) -> (r: String)
    ensures
        r@ == join(prefix@, name@),
{
    if prefix.unicode_len() == 0 {
        name.clone()
    } else {
        let mut r = prefix.clone();
        proof {
            reveal_strlit("/");
        }
        r.append("/");
        r.append(name.as_str());
        r
    }
}

} // verus!
