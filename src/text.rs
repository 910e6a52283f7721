use vstd::prelude::*;

verus! {

broadcast use vstd::string::group_string_axioms;

/// The characters of `s`, in order.
pub fn chars_of(s: &str) -> (r: Vec<char>)
    ensures
        r@ == s@,
{
    let mut v: Vec<char> = Vec::new();
    for c in it: s.chars()
        invariant
            it.seq() == s@,
            v@ == it.seq().take(it.index() as int),
    {
        assert(it.seq().take(it.index() + 1) =~= it.seq().take(it.index() as int).push(c));
        v.push(c);
    }
    assert(s@.take(s@.len() as int) =~= s@);
    v
}

/// The result of replacing, left to right, each non-overlapping occurrence of
/// `pat` in `s` by `rep` (no change for an empty `pat`).
pub open spec fn replace_spec(s: Seq<char>, pat: Seq<char>, rep: Seq<char>) -> Seq<char>
    decreases s.len(),
{
    if pat.len() == 0 || s.len() < pat.len() {
        s
    } else if s.take(pat.len() as int) == pat {
        rep + replace_spec(s.skip(pat.len() as int), pat, rep)
    } else {
        seq![s[0]] + replace_spec(s.drop_first(), pat, rep)
    }
}

/// Replacing a pattern by itself changes nothing.
pub proof fn lemma_replace_self(s: Seq<char>, pat: Seq<char>)
    ensures
        replace_spec(s, pat, pat) == s,
    decreases s.len(),
{
    if pat.len() == 0 || s.len() < pat.len() {
    } else if s.take(pat.len() as int) == pat {
        lemma_replace_self(s.skip(pat.len() as int), pat);
        assert(s =~= pat + s.skip(pat.len() as int));
    } else {
        lemma_replace_self(s.drop_first(), pat);
        assert(s =~= seq![s[0]] + s.drop_first());
    }
}

fn matches_at(t: &Vec<char>, p: &Vec<char>, i: usize) -> (r: bool)
    requires
        i + p@.len() <= t@.len(),
    ensures
        r == (t@.subrange(i as int, i + p@.len()) == p@),
{
    let tl = t.len();
    let mut j: usize = 0;
    while j < p.len()
        invariant
            tl == t@.len(),
            i + p@.len() <= t@.len(),
            j <= p@.len(),
            forall|k: int| 0 <= k < j ==> t@[i + k] == p@[k],
        decreases p@.len() - j,
    {
        if t[i + j] != p[j] {
            assert(t@.subrange(i as int, i + p@.len())[j as int] != p@[j as int]);
            return false;
        }
        j = j + 1;
    }
    assert(t@.subrange(i as int, i + p@.len()) =~= p@);
    true
}

/// Replaces each non-overlapping occurrence of `pat` in `text` by `rep`, left to right.
pub fn replace_all(text: &str, pat: &str, rep: &str) -> (r: String)
    ensures
        r@ == replace_spec(text@, pat@, rep@),
{
    let t = chars_of(text);
    let pc = chars_of(pat);
    let n = t.len();
    let m = pc.len();
    let mut out = String::new();
    if m == 0 {
        out.append(text);
        return out;
    }
    let mut start: usize = 0;
    let mut i: usize = 0;
    assert(text@.subrange(0, n as int) =~= text@);
    assert(text@.subrange(0, 0) =~= Seq::<char>::empty());
    while m <= n - i
        invariant
            t@ == text@,
            pc@ == pat@,
            n == text@.len(),
            m == pat@.len(),
            m > 0,
            start <= i <= n,
            out@ + text@.subrange(start as int, i as int) + replace_spec(
                text@.subrange(i as int, n as int),
                pat@,
                rep@,
            ) == replace_spec(text@, pat@, rep@),
        decreases n - i,
    {
        let ghost s = text@.subrange(i as int, n as int);
        if matches_at(&t, &pc, i) {
            assert(s.take(m as int) =~= text@.subrange(i as int, i + m));
            assert(s.skip(m as int) =~= text@.subrange(i + m, n as int));
            let ghost o = out@;
            out.append(text.substring_char(start, i));
            out.append(rep);
            i = i + m;
            start = i;
            assert(text@.subrange(start as int, i as int) =~= Seq::<char>::empty());
            assert(o + text@.subrange(start as int - m, start as int - m) =~= o);
        } else {
            assert(s.take(m as int) =~= text@.subrange(i as int, i + m));
            assert(s.drop_first() =~= text@.subrange(i + 1, n as int));
            assert(text@.subrange(start as int, i as int) + seq![s[0]] =~= text@.subrange(
                start as int,
                i + 1,
            ));
            i = i + 1;
        }
    }
    out.append(text.substring_char(start, n));
    out
}

} // verus!
