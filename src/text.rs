//! Splitting text into lines and lines into two space-separated tokens.
use vstd::prelude::*;

verus! {

/// The characters of a string, in order.
pub fn chars_of(s: &str) -> (r: Vec<char>)
    ensures
        r@ == s@,
{
    let mut v: Vec<char> = Vec::new();
    for c in it: s.chars()
        invariant
            v@ == it.seq().take(it.index() as int),
            it.seq() == s@,
    {
        v.push(c);
    }
    v
}


/// A line ends at `\n`; a `\r` just before that `\n` belongs to the ending.
pub open spec fn strip_cr(l: Seq<char>) -> Seq<char> {
    if l.len() > 0 && l.last() == '\r' {
        l.drop_last()
    } else {
        l
    }
}

/// The lines of `s`, where `cur` is the part of a line already read.
pub open spec fn lines_after(s: Seq<char>, cur: Seq<char>) -> Seq<Seq<char>>
    decreases s.len(),
{
    if s.len() == 0 {
        if cur.len() == 0 {
            seq![]
        } else {
            seq![cur]
        }
    } else if s[0] == '\n' {
        seq![strip_cr(cur)] + lines_after(s.drop_first(), seq![])
    } else {
        lines_after(s.drop_first(), cur.push(s[0]))
    }
}

/// The lines of a text: split at each `\n` (dropping a `\r` just before
/// it); a final `\n` ends the last line rather than starting an empty one.
pub open spec fn lines(s: Seq<char>) -> Seq<Seq<char>> {
    lines_after(s, seq![])
}

/// The views of a sequence of string slices.
pub open spec fn views(v: Seq<&str>) -> Seq<Seq<char>> {
    v.map_values(|l: &str| l@)
}

/// Splits a text into its lines.
pub fn split_lines<'a>(s: &'a str) -> (r: Vec<&'a str>)
    ensures
        views(r@) == lines(s@),
{
    let cs = chars_of(s);
    let n = cs.len();
    let mut out: Vec<&'a str> = Vec::new();
    let mut start: usize = 0;
    let mut i: usize = 0;
    assert(s@.skip(0) =~= s@);
    assert(s@.subrange(0, 0) =~= Seq::<char>::empty());
    assert(views(out@) =~= Seq::<Seq<char>>::empty());
    assert(views(out@) + lines(s@) =~= lines(s@));
    while i < n
        invariant
            cs@ == s@,
            n == cs@.len(),
            start <= i <= n,
            views(out@) + lines_after(s@.skip(i as int), s@.subrange(start as int, i as int))
                == lines(s@),
        decreases n - i,
    {
        let ghost rest = s@.skip(i as int);
        let ghost cur = s@.subrange(start as int, i as int);
        assert(rest.drop_first() =~= s@.skip(i + 1));
        if cs[i] == '\n' {
            let end: usize = if i > start && cs[i - 1] == '\r' { i - 1 } else { i };
            assert(strip_cr(cur) =~= s@.subrange(start as int, end as int));
            let line = s.substring_char(start, end);
            let ghost old_out = out@;
            out.push(line);
            assert(views(out@) =~= views(old_out).push(line@));
            assert(s@.subrange(i + 1, i + 1) =~= Seq::<char>::empty());
            assert(views(out@) + lines_after(s@.skip(i + 1), seq![]) =~= views(old_out) + (
            seq![strip_cr(cur)] + lines_after(rest.drop_first(), seq![])));
            start = i + 1;
        } else {
            assert(cur.push(rest[0]) =~= s@.subrange(start as int, i + 1));
        }
        i = i + 1;
    }
    let ghost cur = s@.subrange(start as int, n as int);
    assert(s@.skip(n as int).len() == 0);
    if start < n {
        let line = s.substring_char(start, n);
        let ghost old_out = out@;
        out.push(line);
        assert(views(out@) =~= views(old_out).push(line@));
        assert(views(out@) =~= views(old_out) + seq![cur]);
    } else {
        assert(views(out@) =~= views(out@) + Seq::<Seq<char>>::empty());
    }
    out
}

/// Lines written one after the other, each ended by a newline.
pub open spec fn joined(ls: Seq<Seq<char>>) -> Seq<char>
    decreases ls.len(),
{
    if ls.len() == 0 {
        seq![]
    } else {
        joined(ls.drop_last()) + ls.last() + seq!['\n']
    }
}

/// A line that holds neither `\n` nor `\r`.
pub open spec fn plain_line(l: Seq<char>) -> bool {
    forall|i: int| 0 <= i < l.len() ==> #[trigger] l[i] != '\n' && l[i] != '\r'
}

/// A token that holds no space, `\n` or `\r`.
pub open spec fn plain_token(t: Seq<char>) -> bool {
    forall|i: int| 0 <= i < t.len() ==> #[trigger] t[i] != ' ' && t[i] != '\n' && t[i] != '\r'
}

pub proof fn lemma_joined_append(a: Seq<Seq<char>>, b: Seq<Seq<char>>)
    ensures
        joined(a + b) == joined(a) + joined(b),
    decreases b.len(),
{
    if b.len() == 0 {
        assert(a + b =~= a);
        assert(joined(a) + joined(b) =~= joined(a));
    } else {
        lemma_joined_append(a, b.drop_last());
        assert((a + b).drop_last() =~= a + b.drop_last());
        assert((a + b).last() == b.last());
        assert(joined(a + b) =~= joined(a) + joined(b));
    }
}

proof fn lemma_lines_after_line(a: Seq<char>, rest: Seq<char>, cur: Seq<char>)
    requires
        forall|i: int| 0 <= i < a.len() ==> #[trigger] a[i] != '\n',
    ensures
        lines_after(a + seq!['\n'] + rest, cur) == seq![strip_cr(cur + a)] + lines_after(
            rest,
            seq![],
        ),
    decreases a.len(),
{
    let s = a + seq!['\n'] + rest;
    if a.len() == 0 {
        assert(s[0] == '\n');
        assert(s.drop_first() =~= rest);
        assert(cur + a =~= cur);
    } else {
        assert(s[0] == a[0]);
        let a2 = a.drop_first();
        assert(s.drop_first() =~= a2 + seq!['\n'] + rest);
        assert forall|i: int| 0 <= i < a2.len() implies #[trigger] a2[i] != '\n' by {
            assert(a2[i] == a[i + 1]);
        }
        lemma_lines_after_line(a2, rest, cur.push(a[0]));
        assert(cur.push(a[0]) + a2 =~= cur + a);
    }
}

/// Splitting joined plain lines gives the lines back.
pub proof fn lemma_lines_of_joined(ls: Seq<Seq<char>>)
    requires
        forall|i: int| 0 <= i < ls.len() ==> plain_line(#[trigger] ls[i]),
    ensures
        lines(joined(ls)) == ls,
    decreases ls.len(),
{
    if ls.len() == 0 {
        assert(lines(joined(ls)) =~= ls);
    } else {
        let head = seq![ls[0]];
        let tail = ls.drop_first();
        assert(ls =~= head + tail);
        lemma_joined_append(head, tail);
        assert(head.drop_last() =~= Seq::<Seq<char>>::empty());
        assert(joined(head.drop_last()) =~= Seq::<char>::empty());
        assert(head.last() == ls[0]);
        assert(joined(head) =~= ls[0] + seq!['\n']);
        assert(joined(ls) =~= ls[0] + seq!['\n'] + joined(tail));
        assert(plain_line(ls[0]));
        lemma_lines_after_line(ls[0], joined(tail), seq![]);
        assert forall|i: int| 0 <= i < tail.len() implies plain_line(#[trigger] tail[i]) by {
            assert(tail[i] == ls[i + 1]);
        }
        lemma_lines_of_joined(tail);
        assert(seq![] + ls[0] =~= ls[0]);
        if ls[0].len() > 0 {
            assert(ls[0][ls[0].len() - 1] != '\r');
        }
        assert(strip_cr(ls[0]) == ls[0]);
        assert(lines(joined(ls)) =~= head + tail);
    }
}

/// Two plain tokens joined by one space split back into the two.
pub proof fn lemma_split_joined(a: Seq<char>, b: Seq<char>)
    requires
        forall|i: int| 0 <= i < a.len() ==> #[trigger] a[i] != ' ',
        plain_token(b),
    ensures
        split_pair(a + seq![' '] + b) == Some((a, b)),
{
    let s = a + seq![' '] + b;
    let p = a.len() as int;
    assert forall|q: int| 0 <= q < s.len() && q != p implies s[q] != ' ' by {
        if q < p {
            assert(s[q] == a[q]);
        } else {
            assert(s[q] == b[q - p - 1]);
        }
    }
    assert(sole_space_at(s, p));
    let c = choose|c: int| sole_space_at(s, c);
    assert(c == p);
    assert(s.take(p) =~= a);
    assert(s.skip(p + 1) =~= b);
}

/// `p` is the position of the one space in `s`.
pub open spec fn sole_space_at(s: Seq<char>, p: int) -> bool {
    &&& 0 <= p < s.len()
    &&& s[p] == ' '
    &&& forall|q: int| 0 <= q < s.len() && q != p ==> s[q] != ' '
}

/// The two tokens of a line with exactly one space: what stands before it
/// and what stands after it.
pub open spec fn split_pair(s: Seq<char>) -> Option<(Seq<char>, Seq<char>)> {
    if exists|p: int| sole_space_at(s, p) {
        let p = choose|p: int| sole_space_at(s, p);
        Some((s.take(p), s.skip(p + 1)))
    } else {
        None
    }
}

/// Splits a line at its one space.
pub fn split_at_space<'a>(s: &'a str) -> (r: Option<(&'a str, &'a str)>)
    ensures
        match r {
            Some((a, b)) => split_pair(s@) == Some((a@, b@)),
            None => split_pair(s@) is None,
        },
{
    let cs = chars_of(s);
    let n = cs.len();
    let mut count: usize = 0;
    let mut pos: usize = 0;
    let mut i: usize = 0;
    while i < n
        invariant
            cs@ == s@,
            n == cs@.len(),
            i <= n,
            count <= i,
            count == 0 ==> forall|q: int| 0 <= q < i ==> s@[q] != ' ',
            count >= 1 ==> pos < i && s@[pos as int] == ' ',
            count == 1 ==> forall|q: int| 0 <= q < i && q != pos ==> s@[q] != ' ',
            count >= 2 ==> exists|q: int| 0 <= q < i && q != pos && s@[q] == ' ',
        decreases n - i,
    {
        if cs[i] == ' ' {
            if count == 0 {
                pos = i;
            }
            if count < 2 {
                count = count + 1;
            }
        }
        i = i + 1;
    }
    if count == 1 {
        assert(sole_space_at(s@, pos as int));
        let ghost p = choose|p: int| sole_space_at(s@, p);
        assert(p == pos);
        let a = s.substring_char(0, pos);
        let b = s.substring_char(pos + 1, n);
        assert(a@ =~= s@.take(pos as int));
        assert(b@ =~= s@.skip(pos + 1));
        Some((a, b))
    } else {
        assert forall|p: int| !sole_space_at(s@, p) by {
            if count >= 2 {
                let q = choose|q: int| 0 <= q < i && q != pos && s@[q] == ' ';
                if p == q {
                    assert(s@[pos as int] == ' ');
                }
            }
        }
        None
    }
}

} // verus!
