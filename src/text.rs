//! Line handling on plain text: splitting into lines, joining lines back,
//! and stripping a literal prefix.
use vstd::prelude::*;

verus! {

/// The pieces of `s` between newline characters, in order; there is always
/// at least one piece (the text after the last newline, possibly empty).
pub open spec fn newline_pieces(s: Seq<char>) -> Seq<Seq<char>>
    decreases s.len(),
{
    if s.len() == 0 {
        seq![Seq::empty()]
    } else {
        let r = newline_pieces(s.drop_last());
        if s.last() == '\n' {
            r.push(Seq::empty())
        } else {
            r.update(r.len() - 1, r.last().push(s.last()))
        }
    }
}

/// A line that ended in `\r\n` loses its carriage return.
pub open spec fn without_cr(p: Seq<char>) -> Seq<char> {
    if p.len() > 0 && p.last() == '\r' {
        p.drop_last()
    } else {
        p
    }
}

/// The lines of `s`: the pieces between line endings (`\n` or `\r\n`),
/// where the final line ending is optional.
pub open spec fn lines_of(s: Seq<char>) -> Seq<Seq<char>> {
    let p = newline_pieces(s);
    let ended = p.drop_last().map_values(|q: Seq<char>| without_cr(q));
    if p.last().len() == 0 {
        ended
    } else {
        ended.push(p.last())
    }
}

/// The lines `ls` joined with a single newline between neighbours.
pub open spec fn joined_lines(ls: Seq<Seq<char>>) -> Seq<char>
    decreases ls.len(),
{
    if ls.len() == 0 {
        Seq::empty()
    } else if ls.len() == 1 {
        ls[0]
    } else {
        joined_lines(ls.drop_last()) + seq!['\n'] + ls.last()
    }
}

pub open spec fn has_prefix(s: Seq<char>, pre: Seq<char>) -> bool {
    pre.len() <= s.len() && s.subrange(0, pre.len() as int) == pre
}

proof fn lemma_pieces_nonempty(s: Seq<char>)
    ensures
        newline_pieces(s).len() >= 1,
    decreases s.len(),
{
    if s.len() > 0 {
        lemma_pieces_nonempty(s.drop_last());
    }
}

/// Relies on str::chars: it yields the characters of the string in order.
#[verifier::external_body]
pub(crate) fn chars_of(s: &str) -> (r: Vec<char>)
    ensures
        r@ == s@,
{
    s.chars().collect()
}

fn piece_between(s: &str, start: usize, end: usize) -> (r: String)
    requires
        start <= end <= s@.len(),
    ensures
        r@ == s@.subrange(start as int, end as int),
{
    String::from_str(s.substring_char(start, end))
}

/// Splits `s` into its lines, as `lines_of` describes them.
pub fn split_lines(s: &str) -> (r: Vec<String>)
    ensures
        r@.map_values(|x: String| x@) == lines_of(s@),
{
    let cs = chars_of(s);
    let n = cs.len();
    let mut out: Vec<String> = Vec::new();
    let mut start: usize = 0;
    let mut i: usize = 0;
    while i < n
        invariant
            n == cs@.len(),
            cs@ == s@,
            start <= i <= n,
            newline_pieces(s@.take(i as int)).len() >= 1,
            out@.map_values(|x: String| x@) == newline_pieces(s@.take(i as int)).drop_last().map_values(
                |q: Seq<char>| without_cr(q),
            ),
            cs@.subrange(start as int, i as int) == newline_pieces(s@.take(i as int)).last(),
        decreases n - i,
    {
        let ghost before = s@.take(i as int);
        let ghost prev_pieces = newline_pieces(before);
        let ghost out0 = out@.map_values(|x: String| x@);
        proof {
            assert(s@.take(i as int + 1).drop_last() =~= before);
            assert(s@.take(i as int + 1).last() == cs@[i as int]);
        }
        if cs[i] == '\n' {
            let end = if i > start && cs[i - 1] == '\r' { i - 1 } else { i };
            let piece = piece_between(s, start, end);
            proof {
                assert(piece@ =~= without_cr(cs@.subrange(start as int, i as int)));
            }
            out.push(piece);
            start = i + 1;
            i = i + 1;
            proof {
                let next_pieces = newline_pieces(s@.take(i as int));
                assert(next_pieces == prev_pieces.push(Seq::<char>::empty()));
                assert(next_pieces.drop_last() =~= prev_pieces);
                assert(out@.map_values(|x: String| x@) =~= out0.push(without_cr(prev_pieces.last())));
                assert(prev_pieces =~= prev_pieces.drop_last().push(prev_pieces.last()));
                assert(next_pieces.drop_last().map_values(|q: Seq<char>| without_cr(q)) =~= prev_pieces.drop_last().map_values(
                    |q: Seq<char>| without_cr(q),
                ).push(without_cr(prev_pieces.last())));
                assert(cs@.subrange(start as int, i as int) =~= Seq::<char>::empty());
            }
        } else {
            i = i + 1;
            proof {
                let next_pieces = newline_pieces(s@.take(i as int));
                assert(next_pieces == prev_pieces.update(prev_pieces.len() - 1, prev_pieces.last().push(cs@[i - 1])));
                assert(next_pieces.drop_last() =~= prev_pieces.drop_last());
                assert(cs@.subrange(start as int, i as int) =~= cs@.subrange(start as int, i - 1).push(
                    cs@[i - 1],
                ));
                assert(out@.map_values(|x: String| x@) =~= next_pieces.drop_last().map_values(
                    |q: Seq<char>| without_cr(q),
                ));
            }
        }
    }
    proof {
        assert(s@.take(n as int) =~= s@);
    }
    if start < n {
        let last = piece_between(s, start, n);
        out.push(last);
    }
    proof {
        let p = newline_pieces(s@);
        lemma_pieces_nonempty(s@);
        assert(out@.map_values(|x: String| x@) =~= lines_of(s@));
    }
    out
}

/// Joins `ls` with a newline between neighbours, as `joined_lines` describes.
pub fn join_lines(ls: &Vec<String>) -> (r: String)
    ensures
        r@ == joined_lines(ls@.map_values(|x: String| x@)),
{
    let mut out = String::new();
    let mut i: usize = 0;
    while i < ls.len()
        invariant
            i <= ls@.len(),
            out@ == joined_lines(ls@.take(i as int).map_values(|x: String| x@)),
        decreases ls@.len() - i,
    {
        proof {
            let a = ls@.take(i as int + 1).map_values(|x: String| x@);
            assert(a.drop_last() =~= ls@.take(i as int).map_values(|x: String| x@));
        }
        if i > 0 {
            out.append("\n");
        }
        out.append(ls[i].as_str());
        proof {
            reveal_strlit("\n");
            let a = ls@.take(i as int + 1).map_values(|x: String| x@);
            assert(a.last() == ls@[i as int]@);
            if i == 0 {
                assert(out@ =~= a[0]);
            } else {
                assert(out@ =~= joined_lines(a.drop_last()) + seq!['\n'] + a.last());
            }
        }
        i = i + 1;
    }
    proof {
        assert(ls@.take(i as int) =~= ls@);
    }
    out
}

/// Whether `a` and `b` hold the same characters.
pub fn same_text(a: &str, b: &str) -> (r: bool)
    ensures
        r == (a@ == b@),
{
    let x = chars_of(a);
    let y = chars_of(b);
    if x.len() != y.len() {
        return false;
    }
    let mut i: usize = 0;
    while i < x.len()
        invariant
            x@ == a@,
            y@ == b@,
            x@.len() == y@.len(),
            i <= x@.len(),
            forall|j: int| 0 <= j < i ==> x@[j] == y@[j],
        decreases x@.len() - i,
    {
        if x[i] != y[i] {
            return false;
        }
        i = i + 1;
    }
    proof {
        assert(a@ =~= b@);
    }
    true
}

/// What follows `pre` in `s`, where `s` starts with `pre`.
pub fn strip_prefix(s: &str, pre: &str) -> (r: Option<String>)
    ensures
        r.is_some() == has_prefix(s@, pre@),
        r.is_some() ==> r.unwrap()@ == s@.subrange(pre@.len() as int, s@.len() as int),
{
    let cs = chars_of(s);
    let ps = chars_of(pre);
    if ps.len() > cs.len() {
        return None;
    }
    let mut i: usize = 0;
    while i < ps.len()
        invariant
            ps@ == pre@,
            cs@ == s@,
            ps@.len() <= cs@.len(),
            i <= ps@.len(),
            forall|j: int| 0 <= j < i ==> cs@[j] == ps@[j],
        decreases ps@.len() - i,
    {
        if cs[i] != ps[i] {
            return None;
        }
        i = i + 1;
    }
    proof {
        assert(s@.subrange(0, pre@.len() as int) =~= pre@);
    }
    Some(piece_between(s, ps.len(), cs.len()))
}

} // verus!
