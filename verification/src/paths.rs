//! Path syntax: absolute slash-separated paths and the segment alphabet.
//!
//! Paths are absolute (leading `/`), split on `/` into segments; a directory
//! segment must be non-empty and drawn from the alphanumerics plus `=`, `-`
//! and `_`.

use vstd::prelude::*;
use vstd::string::StrSliceExecFns;
use crate::errors::{CudddlyError, CuddlyResult};

verus! {

/// Whether a character counts as alphanumeric, exactly as the standard
/// library classifies it (a property of the character alone).
pub uninterp spec fn char_alphanumeric(c: char) -> bool;

/// Relies on char::is_alphanumeric: the Unicode alphanumeric classes, a
/// function of the character alone.
#[verifier::external_body]
fn is_alphanumeric_char(c: char) -> (r: bool)
    ensures
        r == char_alphanumeric(c),
{
    c.is_alphanumeric()
}

/// Characters admitted in a directory name.
pub open spec fn valid_name_char(c: char) -> bool {
    ||| char_alphanumeric(c)
    ||| c == '='
    ||| c == '-'
    ||| c == '_'
}

/// Every character of the name is admitted (the empty name passes; emptiness
/// is checked separately where it matters).
pub open spec fn spec_valid_name(s: Seq<char>) -> bool {
    forall|i: int| 0 <= i < s.len() ==> valid_name_char(s[i])
}

/// Whether every character of `filename` is alphanumeric or one of `=`, `-`
/// and `_`.
pub fn is_valid_filename(filename: &str) -> (r: bool)
    ensures
        r == spec_valid_name(filename@),
{
    let n = filename.unicode_len();
    let mut i: usize = 0;
    while i < n
        invariant
            n == filename@.len(),
            i <= n,
            forall|j: int| 0 <= j < i ==> valid_name_char(filename@[j]),
        decreases n - i,
    {
        let c = filename.get_char(i);
        let ok = is_alphanumeric_char(c) || c == '=' || c == '-' || c == '_';
        if !ok {
            return false;
        }
        i = i + 1;
    }
    true
}

/// Strips the leading `/`; rejects a path that does not begin with one.
pub fn starts_with_root_directory<'a>(path: &'a str) -> (r: CuddlyResult<&'a str>)
    ensures
        match r {
            Ok(rest) => path@.len() > 0 && path@[0] == '/' && rest@ == path@.drop_first(),
            Err(e) => (path@.len() == 0 || path@[0] != '/') && e is FSError && e.spec_message()
                == "Has to start with root directory"@,
        },
{
    let n = path.unicode_len();
    if n >= 1 && path.get_char(0) == '/' {
        let rest = path.substring_char(1, n);
        proof {
            assert(rest@ =~= path@.drop_first());
        }
        Ok(rest)
    } else {
        Err(CudddlyError::FSError("Has to start with root directory".to_owned()))
    }
}

/// Index of the first `/` in `s`, or `-1` if there is none.
pub open spec fn first_slash(s: Seq<char>) -> int
    decreases s.len(),
{
    if s.len() == 0 {
        -1
    } else if s[0] == '/' {
        0
    } else {
        let r = first_slash(s.drop_first());
        if r < 0 {
            -1
        } else {
            r + 1
        }
    }
}

/// `first_slash` is in range, points at a slash, and nothing before it is one.
pub proof fn lemma_first_slash_props(s: Seq<char>)
    ensures
        -1 <= first_slash(s) < s.len(),
        first_slash(s) >= 0 ==> s[first_slash(s)] == '/',
        forall|j: int| 0 <= j < first_slash(s) ==> s[j] != '/',
        first_slash(s) == -1 ==> forall|j: int| 0 <= j < s.len() ==> s[j] != '/',
    decreases s.len(),
{
    if s.len() > 0 && s[0] != '/' {
        lemma_first_slash_props(s.drop_first());
        let t = s.drop_first();
        assert forall|j: int| 0 <= j < first_slash(s) implies s[j] != '/' by {
            if j > 0 {
                assert(s[j] == t[j - 1]);
            }
        }
        if first_slash(s) == -1 {
            assert forall|j: int| 0 <= j < s.len() implies s[j] != '/' by {
                if j > 0 {
                    assert(s[j] == t[j - 1]);
                }
            }
        }
    }
}

/// `first_slash` is determined by the position of the first slash.
pub proof fn lemma_first_slash_at(s: Seq<char>, k: int)
    requires
        0 <= k < s.len(),
        s[k] == '/',
        forall|j: int| 0 <= j < k ==> s[j] != '/',
    ensures
        first_slash(s) == k,
    decreases s.len(),
{
    if k > 0 {
        lemma_first_slash_at(s.drop_first(), k - 1);
    }
}

/// No slash at all means `first_slash` is `-1`.
pub proof fn lemma_first_slash_none(s: Seq<char>)
    requires
        forall|j: int| 0 <= j < s.len() ==> s[j] != '/',
    ensures
        first_slash(s) == -1,
    decreases s.len(),
{
    if s.len() > 0 {
        lemma_first_slash_none(s.drop_first());
    }
}

/// The segments of `s` split on `/`: `n` slashes give `n + 1` segments, and
/// the empty string gives one empty segment.
pub open spec fn spec_split(s: Seq<char>) -> Seq<Seq<char>>
    decreases s.len(),
    via spec_split_decreases
{
    if first_slash(s) < 0 {
        seq![s]
    } else {
        seq![s.take(first_slash(s))] + spec_split(s.skip(first_slash(s) + 1))
    }
}

#[via_fn]
proof fn spec_split_decreases(s: Seq<char>) {
    lemma_first_slash_props(s);
}

/// `spec_split` never yields an empty list and its segments carry no slash.
pub proof fn lemma_spec_split_len(s: Seq<char>)
    ensures
        spec_split(s).len() >= 1,
    decreases s.len(),
{
    lemma_first_slash_props(s);
    if first_slash(s) >= 0 {
        lemma_spec_split_len(s.skip(first_slash(s) + 1));
    }
}

/// Splitting is injective: two strings with the same segments are equal.
pub proof fn lemma_spec_split_injective(a: Seq<char>, b: Seq<char>)
    requires
        spec_split(a) == spec_split(b),
    ensures
        a == b,
    decreases a.len(),
{
    lemma_first_slash_props(a);
    lemma_first_slash_props(b);
    let fa = first_slash(a);
    let fb = first_slash(b);
    if fa < 0 {
        lemma_spec_split_len(a);
        if fb >= 0 {
            lemma_spec_split_len(b.skip(fb + 1));
            assert(spec_split(b).len() >= 2);
        }
        assert(spec_split(a)[0] == a && spec_split(b)[0] == b);
        assert(a =~= b);
    } else {
        if fb < 0 {
            lemma_spec_split_len(a.skip(fa + 1));
            assert(spec_split(a).len() >= 2);
            lemma_spec_split_len(b);
        }
        assert(fb >= 0);
        assert(spec_split(a)[0] == a.take(fa));
        assert(spec_split(b)[0] == b.take(fb));
        assert(a.take(fa) == b.take(fb));
        assert(fa == fb) by {
            assert(a.take(fa).len() == fa);
            assert(b.take(fb).len() == fb);
        }
        assert(spec_split(a).skip(1) =~= spec_split(a.skip(fa + 1)));
        assert(spec_split(b).skip(1) =~= spec_split(b.skip(fb + 1)));
        lemma_spec_split_injective(a.skip(fa + 1), b.skip(fb + 1));
        assert(a =~= b) by {
            assert forall|j: int| 0 <= j < a.len() implies a[j] == b[j] by {
                if j < fa {
                    assert(a.take(fa)[j] == a[j]);
                    assert(b.take(fb)[j] == b[j]);
                } else if j == fa {
                    assert(a[j] == '/' && b[j] == '/');
                } else {
                    assert(a.skip(fa + 1)[j - fa - 1] == a[j]);
                    assert(b.skip(fb + 1)[j - fb - 1] == b[j]);
                }
            }
            assert(a.len() == b.len()) by {
                assert(a.skip(fa + 1).len() == b.skip(fb + 1).len());
            }
        }
    }
}

/// Splits `path` on `/` into owned segments.
pub fn split_path(path: &str) -> (parts: Vec<String>)
    ensures
        parts.deep_view() == spec_split(path@),
        parts@.len() >= 1,
{
    let n = path.unicode_len();
    let mut parts: Vec<String> = Vec::new();
    let mut seg_start: usize = 0;
    let mut i: usize = 0;
    proof {
        assert(parts.deep_view() + spec_split(path@.skip(0)) =~= spec_split(path@.skip(0)));
        assert(path@.skip(0) =~= path@);
    }
    while i < n
        invariant
            n == path@.len(),
            seg_start <= i <= n,
            parts.deep_view() + spec_split(path@.skip(seg_start as int)) == spec_split(path@),
            forall|j: int| seg_start <= j < i ==> path@[j] != '/',
        decreases n - i,
    {
        let c = path.get_char(i);
        if c == '/' {
            let seg = path.substring_char(seg_start, i);
            let seg_owned = seg.to_owned();
            let ghost prev_deep = parts.deep_view();
            let ghost rem = path@.skip(seg_start as int);
            proof {
                assert forall|j: int| 0 <= j < (i - seg_start) implies rem[j] != '/' by {
                    assert(rem[j] == path@[seg_start + j]);
                }
                assert(rem[(i - seg_start) as int] == path@[i as int]);
                lemma_first_slash_at(rem, (i - seg_start) as int);
                assert(rem.take((i - seg_start) as int) =~= path@.subrange(
                    seg_start as int,
                    i as int,
                ));
                assert(rem.skip((i - seg_start) + 1) =~= path@.skip(i + 1));
                assert(spec_split(rem) == seq![path@.subrange(seg_start as int, i as int)]
                    + spec_split(path@.skip(i + 1)));
            }
            parts.push(seg_owned);
            proof {
                assert(parts.deep_view() =~= prev_deep.push(
                    path@.subrange(seg_start as int, i as int),
                ));
                assert(prev_deep.push(path@.subrange(seg_start as int, i as int)) + spec_split(
                    path@.skip(i + 1),
                ) =~= prev_deep + spec_split(rem));
            }
            seg_start = i + 1;
        }
        i = i + 1;
    }
    let seg = path.substring_char(seg_start, n);
    let seg_owned = seg.to_owned();
    let ghost prev_deep = parts.deep_view();
    let ghost rem = path@.skip(seg_start as int);
    proof {
        assert forall|j: int| 0 <= j < rem.len() implies rem[j] != '/' by {
            assert(rem[j] == path@[seg_start + j]);
        }
        lemma_first_slash_none(rem);
        assert(spec_split(rem) =~= seq![rem]);
        assert(seg@ =~= rem);
    }
    parts.push(seg_owned);
    proof {
        assert(parts.deep_view() =~= prev_deep.push(rem));
        assert(prev_deep.push(rem) =~= prev_deep + spec_split(rem));
        assert(parts.deep_view() == spec_split(path@));
        assert(parts.deep_view().len() == parts@.len());
    }
    parts
}

} // verus!
