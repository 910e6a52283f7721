use vstd::prelude::*;

use crate::tree::string_views;

verus! {

/// The pieces of `p` between single spaces.
pub open spec fn split_spaces(p: Seq<char>) -> Seq<Seq<char>>
    decreases p.len(),
{
    if p.len() == 0 {
        seq![Seq::empty()]
    } else {
        let r = split_spaces(p.drop_last());
        if p.last() == ' ' {
            r.push(Seq::empty())
        } else {
            r.update(r.len() - 1, r.last().push(p.last()))
        }
    }
}

pub open spec fn starts_quoted(d: Seq<char>) -> bool {
    d.len() > 0 && d[0] == '"'
}

pub open spec fn ends_quoted(d: Seq<char>) -> bool {
    d.len() > 0 && d.last() == '"'
}

/// A piece without its opening and closing quote (empty for a lone quote).
pub open spec fn strip_quotes(d: Seq<char>) -> Seq<char> {
    let lo: int = if starts_quoted(d) { 1 } else { 0 };
    let hi: int = if ends_quoted(d) { d.len() - 1 } else { d.len() as int };
    if lo <= hi {
        d.subrange(lo, hi)
    } else {
        Seq::empty()
    }
}

/// Tokenizer state: tokens so far, whether inside quotes, the quoted text so far.
pub struct SplitState {
    pub tokens: Seq<Seq<char>>,
    pub quoting: bool,
    pub buf: Seq<char>,
}

/// The tokenizer after one more space-separated piece `d`.
pub open spec fn split_step(st: SplitState, d: Seq<char>) -> SplitState {
    let s = starts_quoted(d);
    let e = ends_quoted(d);
    if s && !e {
        SplitState { quoting: true, buf: st.buf + d.drop_first(), ..st }
    } else if e && !s {
        SplitState {
            tokens: st.tokens.push(st.buf + seq![' '] + d.drop_last()),
            quoting: false,
            buf: Seq::empty(),
        }
    } else if st.quoting {
        SplitState { buf: st.buf + seq![' '] + d, ..st }
    } else {
        SplitState { tokens: st.tokens.push(strip_quotes(d)), ..st }
    }
}

pub open spec fn split_fold(pieces: Seq<Seq<char>>) -> SplitState
    decreases pieces.len(),
{
    if pieces.len() == 0 {
        SplitState { tokens: Seq::empty(), quoting: false, buf: Seq::empty() }
    } else {
        split_step(split_fold(pieces.drop_last()), pieces.last())
    }
}

/// The tokens of a command line: pieces between spaces, where a piece that
/// opens a double quote runs on to the piece that closes it.
pub open spec fn command_tokens(command: Seq<char>) -> Seq<Seq<char>> {
    split_fold(split_spaces(command)).tokens
}

fn split_pieces(command: &str) -> (r: Vec<String>)
    ensures
        string_views(r@) == split_spaces(command@),
{
    let n = command.unicode_len();
    let mut segs: Vec<String> = Vec::new();
    let mut start: usize = 0;
    let mut i: usize = 0;
    assert(command@.subrange(0, 0) =~= Seq::<char>::empty());
    assert(string_views(segs@) =~= Seq::<Seq<char>>::empty());
    assert(string_views(segs@).push(command@.subrange(0, 0)) =~= seq![Seq::<char>::empty()]);
    while i < n
        invariant
            n == command@.len(),
            start <= i <= n,
            string_views(segs@).push(command@.subrange(start as int, i as int)) == split_spaces(
                command@.subrange(0, i as int),
            ),
        decreases n - i,
    {
        let c = command.get_char(i);
        assert(command@.subrange(0, i + 1).drop_last() =~= command@.subrange(0, i as int));
        assert(command@.subrange(0, i + 1).last() == c);
        if c == ' ' {
            let seg = command.substring_char(start, i).to_owned();
            segs.push(seg);
            assert(string_views(segs@) =~= string_views(segs@.drop_last()).push(
                command@.subrange(start as int, i as int),
            ));
            start = i + 1;
            assert(command@.subrange(start as int, i + 1) =~= Seq::<char>::empty());
        } else {
            assert(command@.subrange(start as int, i as int).push(c) =~= command@.subrange(
                start as int,
                i + 1,
            ));
            assert(string_views(segs@).push(command@.subrange(start as int, i + 1))
                =~= string_views(segs@).push(command@.subrange(start as int, i as int)).update(
                string_views(segs@).len() as int,
                command@.subrange(start as int, i + 1),
            ));
        }
        i = i + 1;
    }
    let last = command.substring_char(start, n).to_owned();
    segs.push(last);
    assert(command@.subrange(0, n as int) =~= command@);
    assert(string_views(segs@) =~= string_views(segs@.drop_last()).push(
        command@.subrange(start as int, n as int),
    ));
    segs
}

/// Splits a command line into tokens; see `command_tokens`.
pub fn command_split(command: &str) -> (r: Vec<String>)
    ensures
        string_views(r@) == command_tokens(command@),
{
    let pieces = split_pieces(command);
    let ghost ps = string_views(pieces@);
    let mut split: Vec<String> = Vec::new();
    let mut quoting = false;
    let mut buf = String::new();
    let mut i: usize = 0;
    assert(ps.take(0) =~= Seq::<Seq<char>>::empty());
    assert(string_views(split@) =~= Seq::<Seq<char>>::empty());
    proof {
        reveal_strlit(" ");
    }
    while i < pieces.len()
        invariant
            i <= pieces@.len(),
            ps == string_views(pieces@),
            split_fold(ps.take(i as int)) == (SplitState {
                tokens: string_views(split@),
                quoting,
                buf: buf@,
            }),
        decreases pieces@.len() - i,
    {
        let d = pieces[i].as_str();
        assert(ps.take(i + 1).drop_last() =~= ps.take(i as int));
        assert(ps.take(i + 1).last() == d@);
        let ghost st0 = SplitState { tokens: string_views(split@), quoting, buf: buf@ };
        let len = d.unicode_len();
        let s = len > 0 && d.get_char(0) == '"';
        let e = len > 0 && d.get_char(len - 1) == '"';
        proof {
            reveal_strlit(" ");
            assert(s == starts_quoted(d@));
            assert(e == ends_quoted(d@));
        }
        if s && !e {
            quoting = true;
            let rest = d.substring_char(1, len);
            assert(rest@ =~= d@.drop_first());
            buf.append(rest);
        } else if e && !s {
            quoting = false;
            buf.append(" ");
            let rest = d.substring_char(0, len - 1);
            assert(rest@ =~= d@.drop_last());
            let ghost b0 = buf@;
            buf.append(rest);
            assert(b0 =~= (buf@.subrange(0, b0.len() as int)));
            assert(buf@ =~= st0.buf + seq![' '] + d@.drop_last());
            let ghost bv = buf@;
            let ghost sv = string_views(split@);
            split.push(buf);
            assert(split@.last()@ == bv);
            assert(string_views(split@) =~= sv.push(bv));
            buf = String::new();
        } else if quoting {
            buf.append(" ");
            buf.append(d);
        } else {
            let lo: usize = if s { 1 } else { 0 };
            let hi: usize = if e { len - 1 } else { len };
            let tok = if lo <= hi {
                d.substring_char(lo, hi).to_owned()
            } else {
                String::new()
            };
            assert(tok@ =~= strip_quotes(d@));
            let ghost sv = string_views(split@);
            split.push(tok);
            assert(string_views(split@) =~= sv.push(tok@));
        }
        assert(split_step(st0, d@).tokens == string_views(split@));
        assert(split_step(st0, d@).quoting == quoting);
        assert(split_step(st0, d@).buf =~= buf@);
        i = i + 1;
    }
    assert(ps.take(i as int) =~= ps);
    split
}

} // verus!
