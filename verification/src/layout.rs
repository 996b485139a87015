//! Fixed-width text layout, as Rust's `format!` pads: widths count
//! characters.

use vstd::prelude::*;
use vstd::string::StrSliceExecFns;

verus! {

/// `n` spaces.
pub open spec fn spaces(n: nat) -> Seq<char> {
    Seq::new(n, |i: int| ' ')
}

/// `s` right-aligned in `w` characters (`{:>w}`): spaces before it where it
/// is shorter.
pub open spec fn pad_left(s: Seq<char>, w: nat) -> Seq<char> {
    if s.len() < w {
        spaces((w - s.len()) as nat) + s
    } else {
        s
    }
}

/// `s` left-aligned in `w` characters (`{:<w}`): spaces after it where it is
/// shorter.
pub open spec fn pad_right(s: Seq<char>, w: nat) -> Seq<char> {
    if s.len() < w {
        s + spaces((w - s.len()) as nat)
    } else {
        s
    }
}

/// The first `n` characters of `s`, or all of it where it is shorter.
pub open spec fn first_chars(s: Seq<char>, n: nat) -> Seq<char> {
    if s.len() < n {
        s
    } else {
        s.take(n as int)
    }
}

/// `lines` joined with `'\n'` between them.
pub open spec fn join_lines(lines: Seq<Seq<char>>) -> Seq<char>
    decreases lines.len(),
{
    if lines.len() == 0 {
        Seq::empty()
    } else if lines.len() == 1 {
        lines[0]
    } else {
        join_lines(lines.drop_last()) + seq!['\n'] + lines.last()
    }
}

/// Appends `n` spaces.
pub fn push_spaces(out: &mut String, n: usize)
    ensures
        final(out)@ == old(out)@ + spaces(n as nat),
{
    let mut i: usize = 0;
    proof {
        reveal_strlit(" ");
        assert(old(out)@ + spaces(0) =~= old(out)@);
    }
    while i < n
        invariant
            i <= n,
            out@ == old(out)@ + spaces(i as nat),
        decreases n - i,
    {
        out.append(" ");
        proof {
            reveal_strlit(" ");
            assert(old(out)@ + spaces((i + 1) as nat) =~= old(out)@ + spaces(i as nat) + seq![' ']);
        }
        i = i + 1;
    }
}

/// Appends `s` right-aligned in `w` characters.
pub fn push_pad_left(out: &mut String, s: &str, w: usize)
    ensures
        final(out)@ == old(out)@ + pad_left(s@, w as nat),
{
    let len = s.unicode_len();
    if len < w {
        push_spaces(out, w - len);
    }
    out.append(s);
    assert(final(out)@ =~= old(out)@ + pad_left(s@, w as nat));
}

/// Appends `s` left-aligned in `w` characters.
pub fn push_pad_right(out: &mut String, s: &str, w: usize)
    ensures
        final(out)@ == old(out)@ + pad_right(s@, w as nat),
{
    let len = s.unicode_len();
    out.append(s);
    if len < w {
        push_spaces(out, w - len);
    }
    assert(final(out)@ =~= old(out)@ + pad_right(s@, w as nat));
}

/// The first `n` characters of `s`.
pub fn first_chars_of(s: &str, n: usize) -> (r: &str)
    ensures
        r@ == first_chars(s@, n as nat),
{
    let len = s.unicode_len();
    if len < n {
        s
    } else {
        s.substring_char(0, n)
    }
}

/// Joins lines with `'\n'`.
pub fn join_with_newlines(lines: &Vec<String>) -> (r: String)
    ensures
        r@ == join_lines(lines@.map_values(|l: String| l@)),
{
    let ghost ls = lines@.map_values(|l: String| l@);
    let mut out = String::new();
    let mut i: usize = 0;
    proof {
        reveal_strlit("\n");
        assert(ls.take(0) =~= Seq::<Seq<char>>::empty());
    }
    while i < lines.len()
        invariant
            i <= lines@.len(),
            ls == lines@.map_values(|l: String| l@),
            out@ == join_lines(ls.take(i as int)),
        decreases lines@.len() - i,
    {
        let ghost before = out@;
        if i > 0 {
            out.append("\n");
        }
        out.append(lines[i].as_str());
        proof {
            reveal_strlit("\n");
            let t = ls.take(i + 1);
            assert(t.drop_last() =~= ls.take(i as int));
            assert(t.last() == lines@[i as int]@);
            if i == 0 {
                assert(out@ =~= t[0]);
            } else {
                assert(out@ =~= before + seq!['\n'] + t.last());
            }
        }
        i = i + 1;
    }
    proof {
        assert(ls.take(lines@.len() as int) =~= ls);
    }
    out
}

/// Joining the first `k` lines gives a prefix of joining them all.
pub proof fn lemma_join_lines_prefix(s: Seq<Seq<char>>, k: int)
    requires
        1 <= k <= s.len(),
    ensures
        join_lines(s.take(k)).len() <= join_lines(s).len(),
        join_lines(s).take(join_lines(s.take(k)).len() as int) == join_lines(s.take(k)),
    decreases s.len(),
{
    if k == s.len() {
        assert(s.take(k) =~= s);
        assert(join_lines(s).take(join_lines(s).len() as int) =~= join_lines(s));
    } else {
        let d = s.drop_last();
        assert(d.take(k) =~= s.take(k));
        lemma_join_lines_prefix(d, k);
        let p = join_lines(s.take(k));
        let a = join_lines(d);
        assert(join_lines(s) == a + seq!['\n'] + s.last());
        assert((a + seq!['\n'] + s.last()).take(p.len() as int) =~= a.take(p.len() as int));
    }
}

} // verus!
