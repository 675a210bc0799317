//! File-name extensions and the allow-list that drives cleanup and flatten.
//!
//! An allow-list entry is normalized to begin with `.` and to be lower-case;
//! a file name matches when the part after its last interior dot, lower-cased
//! and prefixed with a dot, is one of the entries.

use vstd::prelude::*;

verus! {

/// What `str::to_lowercase` returns for `s`. The Unicode mapping is not
/// restated here; the name stands for its result.
pub uninterp spec fn lower_of(s: Seq<char>) -> Seq<char>;

/// Relies on `str::to_lowercase`: the result depends on the characters
/// alone, and the lowercase form of the empty string is empty.
#[verifier::external_body]
fn lowercase(s: &str) -> (r: String)
    ensures
        r@ == lower_of(s@),
        s@.len() == 0 ==> r@.len() == 0,
{
    s.to_lowercase()
}

/// Index of the last `.` in `s`, or -1 when there is none.
pub open spec fn last_dot(s: Seq<char>) -> int
    decreases s.len(),
{
    if s.len() == 0 {
        -1
    } else if s.last() == '.' {
        s.len() - 1
    } else {
        last_dot(s.drop_last())
    }
}

pub proof fn lemma_last_dot_bounds(s: Seq<char>)
    ensures
        -1 <= last_dot(s) < s.len(),
        last_dot(s) >= 0 ==> s[last_dot(s)] == '.',
        forall|j: int| last_dot(s) < j < s.len() ==> s[j] != '.',
    decreases s.len(),
{
    if s.len() == 0 {
    } else if s.last() == '.' {
    } else {
        lemma_last_dot_bounds(s.drop_last());
        assert forall|j: int| last_dot(s) < j < s.len() implies s[j] != '.' by {
            if j < s.len() - 1 {
                assert(s.drop_last()[j] != '.');
            }
        }
    }
}

pub proof fn lemma_last_dot_is(s: Seq<char>, d: int)
    requires
        -1 <= d < s.len(),
        d >= 0 ==> s[d] == '.',
        forall|j: int| d < j < s.len() ==> s[j] != '.',
    ensures
        last_dot(s) == d,
    decreases s.len(),
{
    if s.len() == 0 {
    } else if s.last() == '.' {
        assert(d == s.len() - 1);
    } else {
        assert(d < s.len() - 1);
        assert forall|j: int| d < j < s.drop_last().len() implies s.drop_last()[j] != '.' by {
            assert(s[j] != '.');
        }
        lemma_last_dot_is(s.drop_last(), d);
    }
}

/// The extension of a file name: the part after the last dot, provided that
/// dot is not the leading character. A name such as `.config` has none; a
/// name ending in a dot has the empty extension.
pub open spec fn ext_of(name: Seq<char>) -> Option<Seq<char>> {
    if last_dot(name) >= 1 {
        Some(name.subrange(last_dot(name) + 1, name.len() as int))
    } else {
        None
    }
}

/// The stem of a file name: what precedes the extension, or the whole name
/// when there is no extension.
pub open spec fn stem_of(name: Seq<char>) -> Seq<char> {
    if last_dot(name) >= 1 {
        name.take(last_dot(name))
    } else {
        name
    }
}

/// Extract the extension of a file name, as [`ext_of`] describes.
pub fn extension_of(name: &str) -> (r: Option<String>)
    ensures
        r.deep_view() == ext_of(name@),
{
    let n = name.unicode_len();
    let mut dot: Option<usize> = None;
    let mut i: usize = 0;
    while i < n
        invariant
            n == name@.len(),
            0 <= i <= n,
            match dot {
                None => forall|k: int| 0 <= k < i ==> name@[k] != '.',
                Some(d) => d < i && name@[d as int] == '.'
                    && forall|k: int| d < k < i ==> name@[k] != '.',
            },
        decreases n - i,
    {
        if name.get_char(i) == '.' {
            dot = Some(i);
        }
        i += 1;
    }
    proof {
        match dot {
            None => lemma_last_dot_is(name@, -1),
            Some(d) => lemma_last_dot_is(name@, d as int),
        }
    }
    if let Some(d) = dot {
        if d >= 1 {
            return Some(name.substring_char(d + 1, n).to_owned());
        }
    }
    None
}

/// `s` with a leading dot supplied when it lacks one.
pub open spec fn dotted(s: Seq<char>) -> Seq<char> {
    if s.len() > 0 && s[0] == '.' {
        s
    } else {
        seq!['.'] + s
    }
}

/// The normalized form of an allow-list entry: dot-prefixed, lower-cased.
pub open spec fn spec_normalize_ext(s: Seq<char>) -> Seq<char> {
    lower_of(dotted(s))
}

/// Normalize one allow-list entry.
pub fn normalize_extension(e: &str) -> (r: String)
    ensures
        r@ == spec_normalize_ext(e@),
{
    let n = e.unicode_len();
    if n > 0 && e.get_char(0) == '.' {
        lowercase(e)
    } else {
        let mut d = String::new();
        d.append(".");
        d.append(e);
        proof {
            reveal_strlit(".");
            assert(d@ =~= dotted(e@));
        }
        lowercase(d.as_str())
    }
}

/// Normalize a whole allow-list, entry by entry.
pub fn normalize_extensions(exts: &Vec<String>) -> (r: Vec<String>)
    ensures
        r.deep_view() == exts.deep_view().map_values(|s: Seq<char>| spec_normalize_ext(s)),
{
    let mut out: Vec<String> = Vec::new();
    let mut i: usize = 0;
    while i < exts.len()
        invariant
            0 <= i <= exts.len(),
            out@.len() == i,
            forall|k: int| 0 <= k < i ==> out@[k]@ == spec_normalize_ext(exts@[k]@),
        decreases exts.len() - i,
    {
        let e = normalize_extension(exts[i].as_str());
        out.push(e);
        i += 1;
    }
    proof {
        let goal = exts.deep_view().map_values(|s: Seq<char>| spec_normalize_ext(s));
        assert forall|k: int| 0 <= k < i implies out.deep_view()[k] == goal[k] by {
            assert(out.deep_view()[k] == out@[k]@);
            assert(goal[k] == spec_normalize_ext(exts@[k]@));
        }
        assert(out.deep_view() =~= goal);
    }
    out
}

/// Whether a file name's extension is in the (normalized) allow-list. A name
/// without an extension never matches.
pub open spec fn allowed_name(name: Seq<char>, allowed: Seq<Seq<char>>) -> bool {
    match ext_of(name) {
        Some(e) => allowed.contains(seq!['.'] + lower_of(e)),
        None => false,
    }
}

/// Decide [`allowed_name`] for a concrete name and allow-list.
pub fn is_allowed_name(name: &str, allowed: &Vec<String>) -> (r: bool)
    ensures
        r == allowed_name(name@, allowed.deep_view()),
{
    let ext = extension_of(name);
    match ext {
        None => false,
        Some(e) => {
            let low = lowercase(e.as_str());
            let mut target = String::new();
            target.append(".");
            target.append(low.as_str());
            proof {
                reveal_strlit(".");
                assert(target@ =~= seq!['.'] + lower_of(e@));
            }
            let n = allowed.len();
            let mut i: usize = 0;
            while i < n
                invariant
                    n == allowed.len(),
                    0 <= i <= n,
                    target@ == seq!['.'] + lower_of(e@),
                    ext_of(name@) == Some(e@),
                    forall|j: int| 0 <= j < i ==> allowed.deep_view()[j] != target@,
                decreases n - i,
            {
                if allowed[i] == target {
                    proof {
                        assert(allowed.deep_view()[i as int] == target@);
                    }
                    return true;
                }
                i += 1;
            }
            proof {
                assert forall|j: int| 0 <= j < allowed.deep_view().len()
                    implies allowed.deep_view()[j] != target@ by {
                    assert(allowed.deep_view()[j] == allowed@[j]@);
                }
            }
            false
        },
    }
}

/// The extension of a file name, or the empty sequence when it has none.
pub open spec fn ext_or_empty(name: Seq<char>) -> Seq<char> {
    match ext_of(name) {
        Some(e) => e,
        None => Seq::empty(),
    }
}

/// Split a file name into its stem and its extension (empty when absent).
pub fn stem_and_ext(name: &str) -> (r: (String, String))
    ensures
        r.0@ == stem_of(name@),
        r.1@ == ext_or_empty(name@),
{
    let n = name.unicode_len();
    let mut dot: Option<usize> = None;
    let mut i: usize = 0;
    while i < n
        invariant
            n == name@.len(),
            0 <= i <= n,
            match dot {
                None => forall|k: int| 0 <= k < i ==> name@[k] != '.',
                Some(d) => d < i && name@[d as int] == '.'
                    && forall|k: int| d < k < i ==> name@[k] != '.',
            },
        decreases n - i,
    {
        if name.get_char(i) == '.' {
            dot = Some(i);
        }
        i += 1;
    }
    proof {
        match dot {
            None => lemma_last_dot_is(name@, -1),
            Some(d) => lemma_last_dot_is(name@, d as int),
        }
    }
    if let Some(d) = dot {
        if d >= 1 {
            let stem = name.substring_char(0, d).to_owned();
            let ext = name.substring_char(d + 1, n).to_owned();
            proof {
                assert(stem@ =~= name@.take(d as int));
                assert(ext@ =~= name@.subrange(d + 1, n as int));
            }
            return (stem, ext);
        }
    }
    let stem = name.to_owned();
    let ext = "".to_owned();
    proof {
        reveal_strlit("");
        assert(ext@ =~= Seq::<char>::empty());
    }
    (stem, ext)
}

} // verus!
