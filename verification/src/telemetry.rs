//! Log-level names.

use vstd::prelude::*;
use vstd::string::StringSliceAdditionalSpecFns;

verus! {

/// `c` with ASCII lower-case letters made upper-case.
pub open spec fn ascii_upper_char(c: char) -> char {
    if 'a' <= c <= 'z' {
        ((c as u32) - 32) as char
    } else {
        c
    }
}

/// `s` with ASCII lower-case letters made upper-case (as `to_ascii_uppercase`).
pub open spec fn ascii_upper(s: Seq<char>) -> Seq<char> {
    s.map_values(|c: char| ascii_upper_char(c))
}

/// The `tracing` filter level for a Python-style level name, in any ASCII
/// case: DEBUG gives `debug`, WARNING and WARN give `warn`, ERROR and
/// CRITICAL give `error`, anything else gives `info`.
pub open spec fn spec_tracing_level(level: Seq<char>) -> Seq<char> {
    let u = ascii_upper(level);
    if u == seq!['D', 'E', 'B', 'U', 'G'] {
        seq!['d', 'e', 'b', 'u', 'g']
    } else if u == seq!['W', 'A', 'R', 'N', 'I', 'N', 'G'] || u == seq!['W', 'A', 'R', 'N'] {
        seq!['w', 'a', 'r', 'n']
    } else if u == seq!['E', 'R', 'R', 'O', 'R'] || u == seq!['C', 'R', 'I', 'T', 'I', 'C', 'A', 'L'] {
        seq!['e', 'r', 'r', 'o', 'r']
    } else {
        seq!['i', 'n', 'f', 'o']
    }
}

/// Whether `level`, upper-cased, is the upper-case ASCII name `name`.
fn upper_is(level: &str, name: &str) -> (r: bool)
    requires
        forall|i: int| 0 <= i < name@.len() ==> 'A' <= #[trigger] name@[i] <= 'Z',
    ensures
        r == (ascii_upper(level@) == name@),
{
    broadcast use vstd::string::is_ascii_spec_bytes;

    if !level.is_ascii() {
        proof {
            let i = choose|i: int| 0 <= i < level@.len() && !('\0' <= #[trigger] level@[i] <= '\u{7f}');
            if ascii_upper(level@) == name@ {
                assert(ascii_upper(level@)[i] == level@[i]);
                assert('A' <= name@[i] <= 'Z');
            }
        }
        return false;
    }
    assert(vstd::string::is_ascii(name)) by {
        assert forall|i: int| 0 <= i < name@.len() implies '\0' <= #[trigger] name@[i] <= '\u{7f}' by {
            assert('A' <= name@[i] <= 'Z');
        }
    }
    let a = level.as_bytes();
    let b = name.as_bytes();
    if a.len() != b.len() {
        proof {
            if ascii_upper(level@) == name@ {
                assert(ascii_upper(level@).len() == level@.len());
            }
        }
        return false;
    }
    let mut i: usize = 0;
    while i < a.len()
        invariant
            i <= a@.len(),
            a@.len() == b@.len(),
            a@.len() == level@.len(),
            b@.len() == name@.len(),
            a@ == Seq::new(level@.len(), |j: int| level@[j] as u8),
            b@ == Seq::new(name@.len(), |j: int| name@[j] as u8),
            vstd::string::is_ascii(level),
            forall|j: int| 0 <= j < name@.len() ==> 'A' <= #[trigger] name@[j] <= 'Z',
            forall|j: int| 0 <= j < i ==> ascii_upper_char(#[trigger] level@[j]) == name@[j],
        decreases a@.len() - i,
    {
        let x = a[i];
        let up = if x >= 97 && x <= 122 {
            x - 32
        } else {
            x
        };
        if up != b[i] {
            proof {
                assert(ascii_upper(level@)[i as int] == ascii_upper_char(level@[i as int]));
            }
            return false;
        }
        i = i + 1;
    }
    assert(ascii_upper(level@) =~= name@);
    true
}

/// Maps a Python-style log level name to a `tracing` filter level.
pub fn python_to_tracing_level(level: &str) -> (r: &'static str)
    ensures
        r@ == spec_tracing_level(level@),
{
    proof {
        reveal_strlit("DEBUG");
        reveal_strlit("WARNING");
        reveal_strlit("WARN");
        reveal_strlit("ERROR");
        reveal_strlit("CRITICAL");
        reveal_strlit("debug");
        reveal_strlit("warn");
        reveal_strlit("error");
        reveal_strlit("info");
        assert("DEBUG"@ =~= seq!['D', 'E', 'B', 'U', 'G']);
        assert("WARNING"@ =~= seq!['W', 'A', 'R', 'N', 'I', 'N', 'G']);
        assert("WARN"@ =~= seq!['W', 'A', 'R', 'N']);
        assert("ERROR"@ =~= seq!['E', 'R', 'R', 'O', 'R']);
        assert("CRITICAL"@ =~= seq!['C', 'R', 'I', 'T', 'I', 'C', 'A', 'L']);
        assert("debug"@ =~= seq!['d', 'e', 'b', 'u', 'g']);
        assert("warn"@ =~= seq!['w', 'a', 'r', 'n']);
        assert("error"@ =~= seq!['e', 'r', 'r', 'o', 'r']);
        assert("info"@ =~= seq!['i', 'n', 'f', 'o']);
    }
    if upper_is(level, "DEBUG") {
        "debug"
    } else if upper_is(level, "WARNING") || upper_is(level, "WARN") {
        "warn"
    } else if upper_is(level, "ERROR") || upper_is(level, "CRITICAL") {
        "error"
    } else {
        "info"
    }
}

} // verus!
