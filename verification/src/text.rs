//! Text helpers: decimal rendering, whitespace trimming, line splitting and
//! lossy UTF-8 decoding.

use vstd::prelude::*;
use vstd::utf8::{decode_utf8, valid_utf8};

verus! {

/// The character of a decimal digit.
pub open spec fn digit_char(d: nat) -> char {
    (48 + d) as char
}

/// The decimal representation of `n`, without leading zeros.
pub open spec fn decimal(n: nat) -> Seq<char>
    decreases n,
{
    if n < 10 {
        seq![digit_char(n)]
    } else {
        decimal(n / 10).push(digit_char(n % 10))
    }
}

/// The decimal representation of `i`, with a leading `-` when negative (as
/// Rust's `Display` writes integers).
pub open spec fn int_decimal(i: int) -> Seq<char> {
    if i < 0 {
        seq!['-'] + decimal((-i) as nat)
    } else {
        decimal(i as nat)
    }
}

/// The one-character string of a digit.
fn digit_str(d: u64) -> (r: &'static str)
    requires
        d < 10,
    ensures
        r@ == seq![digit_char(d as nat)],
{
    proof {
        reveal_strlit("0");
        reveal_strlit("1");
        reveal_strlit("2");
        reveal_strlit("3");
        reveal_strlit("4");
        reveal_strlit("5");
        reveal_strlit("6");
        reveal_strlit("7");
        reveal_strlit("8");
        reveal_strlit("9");
    }
    let r = if d == 0 {
        "0"
    } else if d == 1 {
        "1"
    } else if d == 2 {
        "2"
    } else if d == 3 {
        "3"
    } else if d == 4 {
        "4"
    } else if d == 5 {
        "5"
    } else if d == 6 {
        "6"
    } else if d == 7 {
        "7"
    } else if d == 8 {
        "8"
    } else {
        "9"
    };
    assert(r@ =~= seq![digit_char(d as nat)]);
    r
}

/// Appends the decimal representation of `n`.
pub fn push_decimal(out: &mut String, n: u64)
    ensures
        final(out)@ == old(out)@ + decimal(n as nat),
    decreases n,
{
    if n >= 10 {
        push_decimal(out, n / 10);
    }
    out.append(digit_str(n % 10));
    proof {
        if n >= 10 {
            assert(final(out)@ =~= old(out)@ + decimal(n as nat));
        } else {
            assert(final(out)@ =~= old(out)@ + decimal(n as nat));
        }
    }
}

/// The decimal representation of an unsigned integer, e.g. `8080`.
pub fn u64_text(n: u64) -> (r: String)
    ensures
        r@ == decimal(n as nat),
{
    let mut out = String::new();
    push_decimal(&mut out, n);
    assert(out@ =~= decimal(n as nat));
    out
}

/// The decimal representation of a signed integer, e.g. `-42`.
pub fn i64_text(i: i64) -> (r: String)
    ensures
        r@ == int_decimal(i as int),
{
    let mut out = String::new();
    if i < 0 {
        out.append("-");
        proof {
            reveal_strlit("-");
        }
        let magnitude: u64 = (-(i as i128)) as u64;
        push_decimal(&mut out, magnitude);
    } else {
        push_decimal(&mut out, i as u64);
    }
    assert(out@ =~= int_decimal(i as int));
    out
}

/// The text of a boolean, as Rust's `Display` writes it.
pub fn bool_text(b: bool) -> (r: String)
    ensures
        r@ == (if b {
            seq!['t', 'r', 'u', 'e']
        } else {
            seq!['f', 'a', 'l', 's', 'e']
        }),
{
    proof {
        reveal_strlit("true");
        reveal_strlit("false");
    }
    if b {
        String::from_str("true")
    } else {
        String::from_str("false")
    }
}

/// Whether `c` has the Unicode `White_Space` property (as `char::is_whitespace`).
pub open spec fn is_white_space(c: char) -> bool {
    let u = c as u32;
    ||| 0x09 <= u <= 0x0D
    ||| u == 0x20
    ||| u == 0x85
    ||| u == 0xA0
    ||| u == 0x1680
    ||| 0x2000 <= u <= 0x200A
    ||| u == 0x2028
    ||| u == 0x2029
    ||| u == 0x202F
    ||| u == 0x205F
    ||| u == 0x3000
}

/// `s` without its leading white space.
pub open spec fn trim_start(s: Seq<char>) -> Seq<char>
    decreases s.len(),
{
    if s.len() > 0 && is_white_space(s[0]) {
        trim_start(s.drop_first())
    } else {
        s
    }
}

/// `s` without its trailing white space.
pub open spec fn trim_end(s: Seq<char>) -> Seq<char>
    decreases s.len(),
{
    if s.len() > 0 && is_white_space(s.last()) {
        trim_end(s.drop_last())
    } else {
        s
    }
}

/// `s` without leading and trailing white space.
pub open spec fn trimmed(s: Seq<char>) -> Seq<char> {
    trim_end(trim_start(s))
}

/// Calls `str::trim`: the slice without leading and trailing white space,
/// white space being the Unicode `White_Space` property.
#[verifier::external_body]
fn trim(s: &str) -> (r: &str)
    ensures
        r@ == trimmed(s@),
{
    s.trim()
}

/// Calls `str::split_once` with a character delimiter: the text before the
/// first occurrence of `delim` and the text after it, or nothing where
/// `delim` does not occur.
#[verifier::external_body]
pub(crate) fn split_at_first(s: &str, delim: char) -> (r: Option<(&str, &str)>)
    ensures
        r is None <==> !s@.contains(delim),
        r matches Some((a, b)) ==> s@ == a@ + seq![delim] + b@ && !a@.contains(delim),
{
    s.split_once(delim)
}

/// The text of `s` before the first `delim`; all of `s` where there is none.
pub open spec fn before_first(s: Seq<char>, delim: char) -> Seq<char>
    decreases s.len(),
{
    if s.len() == 0 {
        s
    } else if s[0] == delim {
        Seq::empty()
    } else {
        seq![s[0]] + before_first(s.drop_first(), delim)
    }
}

/// Text without the delimiter is its own first field.
pub proof fn lemma_before_first_none(s: Seq<char>, delim: char)
    requires
        !s.contains(delim),
    ensures
        before_first(s, delim) == s,
    decreases s.len(),
{
    if s.len() > 0 {
        assert(!s.drop_first().contains(delim)) by {
            if s.drop_first().contains(delim) {
                let j = choose|j: int| 0 <= j < s.drop_first().len() && s.drop_first()[j] == delim;
                assert(s[j + 1] == delim);
            }
        }
        lemma_before_first_none(s.drop_first(), delim);
        assert(s[0] != delim) by {
            if s[0] == delim {
                assert(s.contains(delim));
            }
        }
        assert(seq![s[0]] + s.drop_first() =~= s);
    }
}

/// The first field of text split at its first delimiter is what precedes it.
pub proof fn lemma_before_first_split(a: Seq<char>, b: Seq<char>, delim: char)
    requires
        !a.contains(delim),
    ensures
        before_first(a + seq![delim] + b, delim) == a,
    decreases a.len(),
{
    let s = a + seq![delim] + b;
    if a.len() == 0 {
        assert(s[0] == delim);
        assert(a =~= Seq::<char>::empty());
    } else {
        let a1 = a.drop_first();
        assert(!a1.contains(delim)) by {
            if a1.contains(delim) {
                let j = choose|j: int| 0 <= j < a1.len() && a1[j] == delim;
                assert(a[j + 1] == delim);
            }
        }
        lemma_before_first_split(a1, b, delim);
        assert(s.drop_first() =~= a1 + seq![delim] + b);
        assert(a[0] != delim) by {
            if a[0] == delim {
                assert(a.contains(delim));
            }
        }
        assert(seq![a[0]] + a1 =~= a);
    }
}

/// The pieces of `s` between newlines: one more than there are newlines.
pub open spec fn newline_pieces(s: Seq<char>) -> Seq<Seq<char>>
    decreases s.len(),
{
    if s.len() == 0 {
        seq![Seq::<char>::empty()]
    } else {
        let rest = newline_pieces(s.drop_first());
        if s[0] == '\n' {
            seq![Seq::<char>::empty()] + rest
        } else {
            rest.update(0, seq![s[0]] + rest[0])
        }
    }
}

/// There is always at least one piece.
pub proof fn lemma_pieces_nonempty(s: Seq<char>)
    ensures
        newline_pieces(s).len() >= 1,
    decreases s.len(),
{
    if s.len() > 0 {
        lemma_pieces_nonempty(s.drop_first());
    }
}

/// Text without a newline is a single piece.
pub proof fn lemma_pieces_no_newline(s: Seq<char>)
    requires
        !s.contains('\n'),
    ensures
        newline_pieces(s) == seq![s],
    decreases s.len(),
{
    if s.len() > 0 {
        assert(!s.drop_first().contains('\n')) by {
            if s.drop_first().contains('\n') {
                let j = choose|j: int| 0 <= j < s.drop_first().len() && s.drop_first()[j] == '\n';
                assert(s[j + 1] == '\n');
            }
        }
        lemma_pieces_no_newline(s.drop_first());
        assert(s[0] != '\n') by {
            if s[0] == '\n' {
                assert(s.contains('\n'));
            }
        }
        assert(seq![s[0]] + s.drop_first() =~= s);
        assert(newline_pieces(s) =~= seq![s]);
    } else {
        assert(s =~= Seq::<char>::empty());
    }
}

/// Text split at its first newline: the first piece, then the pieces of the rest.
pub proof fn lemma_pieces_split(a: Seq<char>, b: Seq<char>)
    requires
        !a.contains('\n'),
    ensures
        newline_pieces(a + seq!['\n'] + b) == seq![a] + newline_pieces(b),
    decreases a.len(),
{
    let s = a + seq!['\n'] + b;
    if a.len() == 0 {
        assert(s.drop_first() =~= b);
        assert(a =~= Seq::<char>::empty());
        assert(seq![Seq::<char>::empty()] =~= seq![a]);
    } else {
        let a1 = a.drop_first();
        assert(!a1.contains('\n')) by {
            if a1.contains('\n') {
                let j = choose|j: int| 0 <= j < a1.len() && a1[j] == '\n';
                assert(a[j + 1] == '\n');
            }
        }
        lemma_pieces_split(a1, b);
        assert(s.drop_first() =~= a1 + seq!['\n'] + b);
        assert(a[0] != '\n') by {
            if a[0] == '\n' {
                assert(a.contains('\n'));
            }
        }
        assert(s[0] == a[0]);
        assert(seq![a[0]] + a1 =~= a);
        assert(newline_pieces(s) =~= seq![a] + newline_pieces(b));
    }
}

/// The non-blank lines of a text, trimmed: each piece between newlines with
/// surrounding white space removed, where anything is left.
pub open spec fn non_blank_lines(s: Seq<char>) -> Seq<Seq<char>> {
    newline_pieces(s).map_values(|p: Seq<char>| trimmed(p)).filter(|p: Seq<char>| p.len() > 0)
}

/// The non-blank lines of a text, trimmed, in order: the text is split at
/// `'\n'`, each piece is trimmed, and empty results are dropped. (A `"\r\n"`
/// line end leaves a `'\r'` that trimming removes, as `str::lines` would.)
pub fn non_blank_trimmed_lines(text: &str) -> (r: Vec<String>)
    ensures
        r@.map_values(|l: String| l@) == non_blank_lines(text@),
{
    let mut out: Vec<String> = Vec::new();
    let mut rest: &str = text;
    let ghost mut done: Seq<Seq<char>> = Seq::empty();
    proof {
        lemma_pieces_nonempty(text@);
    }
    loop
        invariant
            newline_pieces(text@) == done + newline_pieces(rest@),
            out@.map_values(|l: String| l@) == done.map_values(|p: Seq<char>| trimmed(p)).filter(
                |p: Seq<char>| p.len() > 0,
            ),
        decreases rest@.len(),
    {
        let next = split_at_first(rest, '\n');
        match next {
            Some((line, tail)) => {
                proof {
                    lemma_pieces_split(line@, tail@);
                }
                let t = trim(line);
                if !t.is_empty() {
                    out.push(t.to_owned());
                }
                proof {
                    let f = |p: Seq<char>| trimmed(p);
                    let g = |p: Seq<char>| p.len() > 0;
                    let nd = done.push(line@);
                    assert(nd.map_values(f) =~= done.map_values(f).push(trimmed(line@)));
                    done.map_values(f).lemma_filter_push(trimmed(line@), g);
                    assert(out@.map_values(|l: String| l@) =~= nd.map_values(f).filter(g));
                    assert(done + newline_pieces(rest@) =~= nd + newline_pieces(tail@));
                    done = nd;
                }
                rest = tail;
            },
            None => {
                proof {
                    lemma_pieces_no_newline(rest@);
                }
                let t = trim(rest);
                if !t.is_empty() {
                    out.push(t.to_owned());
                }
                proof {
                    let f = |p: Seq<char>| trimmed(p);
                    let g = |p: Seq<char>| p.len() > 0;
                    let nd = done.push(rest@);
                    assert(nd.map_values(f) =~= done.map_values(f).push(trimmed(rest@)));
                    done.map_values(f).lemma_filter_push(trimmed(rest@), g);
                    assert(out@.map_values(|l: String| l@) =~= nd.map_values(f).filter(g));
                    assert(newline_pieces(text@) =~= nd);
                }
                return out;
            },
        }
    }
}

/// The name of the text that `String::from_utf8_lossy` makes of `bytes`.
pub uninterp spec fn lossy_utf8(bytes: Seq<u8>) -> Seq<char>;

/// Calls `String::from_utf8_lossy`: invalid UTF-8 sequences become U+FFFD.
/// Valid UTF-8 is decoded unchanged; for other input the text is only named.
#[verifier::external_body]
pub(crate) fn decode_lossy(bytes: &[u8]) -> (r: String)
    ensures
        r@ == lossy_utf8(bytes@),
        valid_utf8(bytes@) ==> r@ == decode_utf8(bytes@),
{
    String::from_utf8_lossy(bytes).into_owned()
}

} // verus!
