//! Path templating and URL slugs.
//!
//! A copy action names its source and destination as template strings; two
//! placeholders are recognized, one for the staged download root and one
//! for the installation directory of the target plugin format. A staged
//! download's directory name is a slug of its URL.
use vstd::prelude::*;

use crate::error::InstallError;
use crate::error::same_error;

verus! {

/// An ASCII letter.
pub open spec fn is_ascii_alpha(c: char) -> bool {
    (65 <= c as int && c as int <= 90) || (97 <= c as int && c as int <= 122)
}

/// The lowercase form of an ASCII letter; other characters are unchanged.
pub open spec fn lower_char(c: char) -> char {
    if 65 <= c as int && c as int <= 90 {
        ((c as u8) + 32) as char
    } else {
        c
    }
}

/// The slug of a string: its ASCII letters, lowercased, everything else dropped.
pub open spec fn slug_of(s: Seq<char>) -> Seq<char>
    decreases s.len(),
{
    if s.len() == 0 {
        Seq::empty()
    } else {
        let rest = slug_of(s.skip(1));
        if is_ascii_alpha(s[0]) {
            seq![lower_char(s[0])] + rest
        } else {
            rest
        }
    }
}

/// Relies on String::push: appends the given character to the end of the string.
#[verifier::external_body]
fn push_char(s: &mut String, c: char)
    ensures
        final(s)@ == old(s)@.push(c),
{
    s.push(c);
}

fn is_alpha(c: char) -> (r: bool)
    ensures
        r == is_ascii_alpha(c),
{
    let u = c as u32;
    (65 <= u && u <= 90) || (97 <= u && u <= 122)
}

fn lower(c: char) -> (r: char)
    ensures
        r == lower_char(c),
{
    let u = c as u32;
    if 65 <= u && u <= 90 {
        let b: u8 = (u + 32) as u8;
        b as char
    } else {
        c
    }
}

/// Derives a deterministic staging name from a URL: a normalized, lowercase,
/// alphabetic-only slug. Distinct URLs may slug to the same value; that
/// collision is an accepted limitation and surfaces as a staging collision.
pub fn slugify(s: &str) -> (r: String)
    ensures
        r@ == slug_of(s@),
{
    let n = s.unicode_len();
    let mut out = String::new();
    let mut i: usize = 0;
    proof {
        assert(s@.skip(0) =~= s@);
        assert(out@ + slug_of(s@) =~= slug_of(s@));
    }
    while i < n
        invariant
            i <= n,
            out@ + slug_of(s@.skip(i as int)) == slug_of(s@),
        decreases n - i,
    {
        let c = s.get_char(i);
        proof {
            assert(s@.skip(i as int).skip(1) =~= s@.skip(i as int + 1));
            assert(s@.skip(i as int)[0] == s@[i as int]);
        }
        if is_alpha(c) {
            push_char(&mut out, lower(c));
        }
        i = i + 1;
    }
    proof {
        assert(s@.skip(n as int) =~= Seq::<char>::empty());
        assert(out@ + slug_of(s@.skip(n as int)) =~= out@);
    }
    out
}

/// Whether two strings hold the same characters.
pub fn str_eq(a: &str, b: &str) -> (r: bool)
    ensures
        r == (a@ == b@),
{
    let na = a.unicode_len();
    let nb = b.unicode_len();
    if na != nb {
        return false;
    }
    let mut i: usize = 0;
    while i < na
        invariant
            i <= na,
            na == a@.len(),
            na == b@.len(),
            forall|k: int| 0 <= k < i ==> a@[k] == b@[k],
        decreases na - i,
    {
        if a.get_char(i) != b.get_char(i) {
            return false;
        }
        i = i + 1;
    }
    proof {
        assert(a@ =~= b@);
    }
    true
}

/// All non-overlapping occurrences of `pat` in `s` replaced by `rep`,
/// scanning left to right. An empty pattern replaces nothing.
pub open spec fn replace_seq(s: Seq<char>, pat: Seq<char>, rep: Seq<char>) -> Seq<char>
    decreases s.len(),
{
    if pat.len() == 0 || s.len() < pat.len() {
        s
    } else if s.subrange(0, pat.len() as int) == pat {
        rep + replace_seq(s.skip(pat.len() as int), pat, rep)
    } else {
        seq![s[0]] + replace_seq(s.skip(1), pat, rep)
    }
}

/// Whether `pat` occurs anywhere in `s`.
pub open spec fn contains_seq(s: Seq<char>, pat: Seq<char>) -> bool {
    exists|k: int|
        0 <= k && k + pat.len() <= s.len() && #[trigger] s.subrange(k, k + pat.len() as int)
            == pat
}

/// Replacement is the identity on strings in which the pattern does not occur.
pub proof fn lemma_replace_absent(s: Seq<char>, pat: Seq<char>, rep: Seq<char>)
    requires
        !contains_seq(s, pat),
    ensures
        replace_seq(s, pat, rep) == s,
    decreases s.len(),
{
    if pat.len() == 0 || s.len() < pat.len() {
    } else if s.subrange(0, pat.len() as int) == pat {
        assert(contains_seq(s, pat)) by {
            assert(0 <= 0 && 0 + pat.len() <= s.len() && s.subrange(0, pat.len() as int) == pat);
        }
    } else {
        assert(!contains_seq(s.skip(1), pat)) by {
            if contains_seq(s.skip(1), pat) {
                let k = choose|k: int|
                    0 <= k && k + pat.len() <= s.skip(1).len() && #[trigger] s.skip(1).subrange(
                        k,
                        k + pat.len() as int,
                    ) == pat;
                assert(s.subrange(k + 1, k + 1 + pat.len() as int) =~= s.skip(1).subrange(
                    k,
                    k + pat.len() as int,
                ));
            }
        }
        lemma_replace_absent(s.skip(1), pat, rep);
        assert(seq![s[0]] + s.skip(1) =~= s);
    }
}

fn matches_at(s: &str, i: usize, pat: &str) -> (r: bool)
    requires
        i + pat@.len() <= s@.len(),
    ensures
        r == (s@.subrange(i as int, i as int + pat@.len() as int) == pat@),
{
    let n = s.unicode_len();
    let m = pat.unicode_len();
    let mut j: usize = 0;
    while j < m
        invariant
            j <= m,
            i + m <= n,
            n == s@.len(),
            m == pat@.len(),
            forall|k: int| 0 <= k < j ==> s@[i + k] == pat@[k],
        decreases m - j,
    {
        if s.get_char(i + j) != pat.get_char(j) {
            proof {
                assert(s@.subrange(i as int, i as int + m as int)[j as int] != pat@[j as int]);
            }
            return false;
        }
        j = j + 1;
    }
    proof {
        assert(s@.subrange(i as int, i as int + m as int) =~= pat@);
    }
    true
}

/// All occurrences of `pat` in `s` replaced by `rep`, left to right.
pub fn replace_str(s: &str, pat: &str, rep: &str) -> (r: String)
    requires
        pat@.len() >= 1,
    ensures
        r@ == replace_seq(s@, pat@, rep@),
{
    let n = s.unicode_len();
    let m = pat.unicode_len();
    let mut out = String::new();
    let mut i: usize = 0;
    proof {
        assert(s@.skip(0) =~= s@);
        assert(out@ + replace_seq(s@, pat@, rep@) =~= replace_seq(s@, pat@, rep@));
    }
    while i < n
        invariant
            i <= n,
            m == pat@.len(),
            1 <= m,
            out@ + replace_seq(s@.skip(i as int), pat@, rep@) == replace_seq(s@, pat@, rep@),
        decreases n - i,
    {
        proof {
            assert(s@.skip(i as int)[0] == s@[i as int]);
        }
        if m <= n - i && matches_at(s, i, pat) {
            proof {
                assert(s@.skip(i as int).subrange(0, m as int) =~= s@.subrange(
                    i as int,
                    i as int + m as int,
                ));
                assert(s@.skip(i as int).skip(m as int) =~= s@.skip(i as int + m as int));
            }
            out.append(rep);
            i = i + m;
        } else {
            proof {
                if i + m <= n {
                    assert(s@.skip(i as int).subrange(0, m as int) =~= s@.subrange(
                        i as int,
                        i as int + m as int,
                    ));
                }
                assert(s@.skip(i as int).skip(1) =~= s@.skip(i as int + 1));
            }
            let c = s.substring_char(i, i + 1);
            proof {
                assert(c@ =~= seq![s@[i as int]]);
            }
            out.append(c);
            i = i + 1;
        }
    }
    proof {
        assert(s@.skip(n as int) =~= Seq::<char>::empty());
        assert(out@ + replace_seq(s@.skip(n as int), pat@, rep@) =~= out@);
    }
    out
}

/// The configuration table of installation directories, one per plugin
/// format, injected into the templater so that callers and tests can choose
/// their own roots.
pub struct InstallDirs {
    pub clap: String,
    pub vst2: String,
    pub vst3: String,
}

/// The installation directory for a plugin format, or `None` for an
/// unrecognized format.
pub open spec fn spec_dir_for(fmt: Seq<char>, dirs: InstallDirs) -> Option<Seq<char>> {
    if fmt == "CLAP"@ {
        Some(dirs.clap@)
    } else if fmt == "VST2"@ {
        Some(dirs.vst2@)
    } else if fmt == "VST3"@ {
        Some(dirs.vst3@)
    } else {
        None
    }
}

/// What templating a path comes to: substitute the staged-download root for
/// `%dl%` and the format's installation directory for `%plugs%`; an
/// unrecognized format is an error.
pub open spec fn spec_process_path(
    p: Seq<char>,
    dl: Seq<char>,
    fmt: Seq<char>,
    dirs: InstallDirs,
) -> Result<Seq<char>, InstallError> {
    match spec_dir_for(fmt, dirs) {
        Option::None => Result::Err(InstallError::UnsupportedFormat),
        Option::Some(root) => Result::Ok(
            replace_seq(replace_seq(p, "%dl%"@, dl), "%plugs%"@, root),
        ),
    }
}

/// Whether an executable templating result agrees with the specified one.
pub open spec fn path_result_matches(
    r: Result<String, InstallError>,
    s: Result<Seq<char>, InstallError>,
) -> bool {
    match (r, s) {
        (Result::Ok(a), Result::Ok(b)) => a@ == b,
        (Result::Err(a), Result::Err(b)) => same_error(a, b),
        _ => false,
    }
}

/// Rewrites a template string into a concrete path for the given staged
/// download root and target plugin format.
pub fn process_path(p: &str, dl: &str, fmt: &str, dirs: &InstallDirs) -> (r: Result<
    String,
    InstallError,
>)
    ensures
        path_result_matches(r, spec_process_path(p@, dl@, fmt@, *dirs)),
{
    let root: &String = if str_eq(fmt, "CLAP") {
        &dirs.clap
    } else if str_eq(fmt, "VST2") {
        &dirs.vst2
    } else if str_eq(fmt, "VST3") {
        &dirs.vst3
    } else {
        return Result::Err(InstallError::UnsupportedFormat);
    };
    proof {
        reveal_strlit("%dl%");
        reveal_strlit("%plugs%");
    }
    let a = replace_str(p, "%dl%", dl);
    Result::Ok(replace_str(a.as_str(), "%plugs%", root.as_str()))
}

/// Templating is the identity on templates in which neither placeholder
/// occurs: for a recognized format, a template without `%dl%` or
/// `%plugs%` passes through unchanged.
pub proof fn lemma_process_path_identity(
    p: Seq<char>,
    dl: Seq<char>,
    fmt: Seq<char>,
    dirs: InstallDirs,
)
    requires
        !contains_seq(p, "%dl%"@),
        !contains_seq(p, "%plugs%"@),
        spec_dir_for(fmt, dirs) is Some,
    ensures
        spec_process_path(p, dl, fmt, dirs) == Result::<Seq<char>, InstallError>::Ok(p),
{
    let root = spec_dir_for(fmt, dirs)->Some_0;
    lemma_replace_absent(p, "%dl%"@, dl);
    lemma_replace_absent(p, "%plugs%"@, root);
}

} // verus!
