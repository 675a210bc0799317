//! Deriving a filesystem-safe folder name from an arbitrary display title.
//!
//! Every character that is not alphanumeric, a space, `-` or `_` is replaced
//! by `_`, and the result is trimmed of leading and trailing spaces. Callers
//! that need a non-empty name must substitute a fallback identifier when the
//! sanitized title comes out empty.

use vstd::prelude::*;

verus! {

/// Whether `char::is_alphanumeric` holds of `c`. The Unicode tables behind
/// that method are not restated here; the name stands for its result.
pub uninterp spec fn is_alphanum(c: char) -> bool;

/// Relies on `char::is_alphanumeric`: the result depends on the character
/// alone.
#[verifier::external_body]
fn char_is_alphanumeric(c: char) -> (r: bool)
    ensures
        r == is_alphanum(c),
{
    c.is_alphanumeric()
}

/// A character that sanitization keeps unchanged.
pub open spec fn keeps_char(c: char) -> bool {
    is_alphanum(c) || c == ' ' || c == '-' || c == '_'
}

/// `s` with every unsafe character replaced by an underscore.
pub open spec fn replaced_chars(s: Seq<char>) -> Seq<char> {
    s.map_values(|c: char| if keeps_char(c) { c } else { '_' })
}

/// Number of leading spaces of `s`.
pub open spec fn leading_spaces(s: Seq<char>) -> int
    decreases s.len(),
{
    if s.len() == 0 {
        0
    } else if s[0] == ' ' {
        1 + leading_spaces(s.drop_first())
    } else {
        0
    }
}

/// Number of trailing spaces of `s`.
pub open spec fn trailing_spaces(s: Seq<char>) -> int
    decreases s.len(),
{
    if s.len() == 0 {
        0
    } else if s.last() == ' ' {
        1 + trailing_spaces(s.drop_last())
    } else {
        0
    }
}

/// `s` with leading and trailing spaces removed.
pub open spec fn trim_spaces(s: Seq<char>) -> Seq<char> {
    if leading_spaces(s) == s.len() {
        Seq::empty()
    } else {
        s.subrange(leading_spaces(s), s.len() - trailing_spaces(s))
    }
}

/// The sanitized form of a raw title.
pub open spec fn spec_sanitize(s: Seq<char>) -> Seq<char> {
    trim_spaces(replaced_chars(s))
}

proof fn lemma_leading_spaces_bounds(s: Seq<char>)
    ensures
        0 <= leading_spaces(s) <= s.len(),
        forall|j: int| 0 <= j < leading_spaces(s) ==> s[j] == ' ',
        leading_spaces(s) < s.len() ==> s[leading_spaces(s)] != ' ',
    decreases s.len(),
{
    if s.len() == 0 {
    } else if s[0] == ' ' {
        lemma_leading_spaces_bounds(s.drop_first());
        assert forall|j: int| 0 <= j < leading_spaces(s) implies s[j] == ' ' by {
            if j > 0 {
                assert(s.drop_first()[j - 1] == ' ');
            }
        }
    } else {
    }
}

proof fn lemma_leading_spaces_is(s: Seq<char>, a: int)
    requires
        0 <= a <= s.len(),
        forall|j: int| 0 <= j < a ==> s[j] == ' ',
        a < s.len() ==> s[a] != ' ',
    ensures
        leading_spaces(s) == a,
    decreases s.len(),
{
    if s.len() == 0 {
    } else if s[0] == ' ' {
        assert(a >= 1);
        lemma_leading_spaces_is(s.drop_first(), a - 1);
    } else {
        assert(a == 0);
    }
}

proof fn lemma_trailing_spaces_bounds(s: Seq<char>)
    ensures
        0 <= trailing_spaces(s) <= s.len(),
        forall|j: int| s.len() - trailing_spaces(s) <= j < s.len() ==> s[j] == ' ',
        trailing_spaces(s) < s.len() ==> s[s.len() - trailing_spaces(s) - 1] != ' ',
    decreases s.len(),
{
    if s.len() == 0 {
    } else if s.last() == ' ' {
        lemma_trailing_spaces_bounds(s.drop_last());
        assert forall|j: int| s.len() - trailing_spaces(s) <= j < s.len() implies s[j] == ' ' by {
            if j < s.len() - 1 {
                assert(s.drop_last()[j] == ' ');
            }
        }
    } else {
    }
}

proof fn lemma_trailing_spaces_is(s: Seq<char>, t: int)
    requires
        0 <= t <= s.len(),
        forall|j: int| s.len() - t <= j < s.len() ==> s[j] == ' ',
        t < s.len() ==> s[s.len() - t - 1] != ' ',
    ensures
        trailing_spaces(s) == t,
    decreases s.len(),
{
    if s.len() == 0 {
    } else if s.last() == ' ' {
        assert(t >= 1);
        assert forall|j: int| s.drop_last().len() - (t - 1) <= j < s.drop_last().len()
            implies s.drop_last()[j] == ' ' by {
            assert(s[j] == ' ');
        }
        lemma_trailing_spaces_is(s.drop_last(), t - 1);
    } else {
        assert(t == 0);
    }
}

/// Produce a folder-name-safe string from a raw display title: every
/// character that is not alphanumeric, a space, `-` or `_` becomes `_`, and
/// leading and trailing spaces are trimmed.
pub fn sanitize_title(title: &str) -> (r: String)
    ensures
        r@ == spec_sanitize(title@),
{
    let n = title.unicode_len();
    let mut rep = String::new();
    let mut i: usize = 0;
    while i < n
        invariant
            n == title@.len(),
            0 <= i <= n,
            rep@ == replaced_chars(title@.take(i as int)),
        decreases n - i,
    {
        let c = title.get_char(i);
        let ghost old_rep = rep@;
        if char_is_alphanumeric(c) || c == ' ' || c == '-' || c == '_' {
            let piece = title.substring_char(i, i + 1);
            rep.append(piece);
        } else {
            rep.append("_");
            proof {
                reveal_strlit("_");
                assert(rep@ =~= old_rep + seq!['_']);
            }
        }
        proof {
            assert(rep@ =~= replaced_chars(title@.take(i + 1)));
        }
        i += 1;
    }
    proof {
        assert(title@.take(n as int) =~= title@);
    }
    let ghost full = replaced_chars(title@);
    assert(rep@.len() == n);

    let mut a: usize = 0;
    while a < n && rep.as_str().get_char(a) == ' '
        invariant
            rep@ == full,
            n == full.len(),
            0 <= a <= n,
            forall|j: int| 0 <= j < a ==> full[j] == ' ',
        decreases n - a,
    {
        a += 1;
    }
    if a == n {
        proof {
            lemma_leading_spaces_is(full, n as int);
        }
        return String::new();
    }
    proof {
        lemma_leading_spaces_is(full, a as int);
    }
    let mut b: usize = n;
    while rep.as_str().get_char(b - 1) == ' '
        invariant
            rep@ == full,
            n == full.len(),
            a < b <= n,
            full[a as int] != ' ',
            forall|j: int| b <= j < n ==> full[j] == ' ',
        decreases b,
    {
        b -= 1;
    }
    proof {
        lemma_trailing_spaces_is(full, n - b as int);
    }
    let out = rep.as_str().substring_char(a, b);
    proof {
        assert(out@ == full.subrange(a as int, b as int));
    }
    out.to_owned()
}

} // verus!
