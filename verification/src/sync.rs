//! Synchronisation rules: scoping, dispatch and checksum paths.
//!
//! A rule fires when its `when` field names the current scope (comma or
//! pipe separated, case-insensitive, with `*`, `any`, `all` or an empty
//! field meaning always). A firing rule is either a structured JSON
//! merge — when it declares the `json` format and the caller supplies a
//! merge configuration — or a plain copy. The file operations around a
//! rule are the caller's business.

use vstd::prelude::*;
use vstd::string::*;
use crate::textutil::{chars_of, string_from_chars, push_chars, lower_seq, eq_ignore_case,
    split_on, split_chars, is_space};
use crate::path::{trim_spec, lemma_trim_left_range, lemma_trim_right_range, is_space_exec};
use crate::checks::replace_spec;

verus! {

broadcast use crate::textutil::lemma_char_vec_deep_view;

/// One synchronisation policy file: lint defaults plus its rules.
pub struct SyncPolicy {
    pub lint: Option<SyncLintDefaults>,
    pub sync: Vec<SyncRule>,
}

/// Default severity and message for unsynchronised targets.
pub struct SyncLintDefaults {
    pub level: Option<String>,
    pub message: Option<String>,
}

/// One synchronisation rule.
pub struct SyncRule {
    pub id: String,
    pub source: String,
    pub target: String,
    pub when: String,
    pub format: Option<String>,
    pub level: Option<String>,
    pub message: Option<String>,
}

/// The outcome of one rule's application.
pub struct SyncAction {
    pub rule_id: String,
    pub source: String,
    pub target: String,
    pub wrote: bool,
    pub format: Option<String>,
    pub would_write: bool,
}

/// The scope tokens of a `when` field: split at commas and pipes.
pub open spec fn when_tokens(w: Seq<char>) -> Seq<Seq<char>> {
    split_on(replace_spec(w, seq!['|'], seq![',']), ',')
}

/// Whether a rule's `when` field admits the given scope: an empty or
/// universal field always does; otherwise some token must name the
/// scope, up to ASCII case and surrounding whitespace.
pub open spec fn rule_enabled(when: Seq<char>, scope: Seq<char>) -> bool {
    let w = trim_spec(when);
    if w.len() == 0 || w == seq!['*'] || lower_seq(w) == lower_seq("any"@) || lower_seq(w)
        == lower_seq("all"@) {
        true
    } else {
        exists|i: int|
            0 <= i < when_tokens(w).len() && trim_spec(#[trigger] when_tokens(w)[i]).len() > 0
                && lower_seq(trim_spec(when_tokens(w)[i])) == lower_seq(scope)
    }
}

/// Trims a character vector.
fn trim_vec(v: &Vec<char>) -> (out: Vec<char>)
    ensures
        out@ == trim_spec(v@),
{
    let mut lo: usize = 0;
    while lo < v.len() && is_space_exec(v[lo])
        invariant
            lo <= v@.len(),
            forall|j: int| 0 <= j < lo ==> is_space(v@[j]),
        decreases v@.len() - lo,
    {
        lo = lo + 1;
    }
    let mut hi: usize = v.len();
    while hi > lo && is_space_exec(v[hi - 1])
        invariant
            lo <= hi <= v@.len(),
            forall|j: int| 0 <= j < lo ==> is_space(v@[j]),
            lo < v@.len() ==> !is_space(v@[lo as int]),
            forall|j: int| hi <= j < v@.len() ==> is_space(v@[j]),
        decreases hi,
    {
        hi = hi - 1;
    }
    proof {
        lemma_trim_left_range(v@, lo as int);
        let t = v@.subrange(lo as int, v@.len() as int);
        lemma_trim_right_range(t, hi - lo);
        assert(t.subrange(0, hi - lo) =~= v@.subrange(lo as int, hi as int));
        if hi > lo {
            assert(!is_space(t[hi - lo - 1]));
        }
    }
    let mut out: Vec<char> = Vec::new();
    let mut i: usize = lo;
    while i < hi
        invariant
            lo <= i <= hi <= v@.len(),
            out@ == v@.subrange(lo as int, i as int),
        decreases hi - i,
    {
        out.push(v[i]);
        proof {
            assert(out@ =~= v@.subrange(lo as int, i + 1 as int));
        }
        i = i + 1;
    }
    proof {
        assert(out@ =~= v@.subrange(lo as int, hi as int));
    }
    out
}

/// Decides whether a rule applies to the given scope.
pub fn is_rule_enabled(when: &str, scope: &str) -> (r: bool)
    ensures
        r == rule_enabled(when@, scope@),
{
    let wc = chars_of(when);
    let w = trim_vec(&wc);
    if w.len() == 0 {
        return true;
    }
    let star = chars_of("*");
    proof {
        reveal_strlit("*");
        assert(star@ =~= seq!['*']);
    }
    if crate::textutil::chars_eq(&w, &star) {
        return true;
    }
    let any = chars_of("any");
    let all = chars_of("all");
    if eq_ignore_case(w.as_slice(), any.as_slice()) {
        return true;
    }
    if eq_ignore_case(w.as_slice(), all.as_slice()) {
        return true;
    }
    // Split at commas and pipes, then compare each trimmed token.
    let pat = chars_of("|");
    let rep = chars_of(",");
    proof {
        reveal_strlit("|");
        reveal_strlit(",");
        assert(pat@ =~= seq!['|']);
        assert(rep@ =~= seq![',']);
    }
    let norm = crate::checks::replace_chars(&w, &pat, &rep);
    let toks = split_chars(&norm, ',');
    let sc = chars_of(scope);
    let ghost gtoks = when_tokens(trim_spec(when@));
    proof {
        assert(toks.deep_view() == gtoks);
    }
    let mut i: usize = 0;
    while i < toks.len()
        invariant
            i <= toks@.len(),
            sc@ == scope@,
            toks.deep_view() == gtoks,
            gtoks == when_tokens(trim_spec(when@)),
            gtoks.len() == toks@.len(),
            forall|j: int|
                0 <= j < i ==> !(trim_spec(#[trigger] gtoks[j]).len() > 0 && lower_seq(
                    trim_spec(gtoks[j]),
                ) == lower_seq(scope@)),
        decreases toks@.len() - i,
    {
        let t = trim_vec(&toks[i]);
        proof {
            assert(toks@[i as int].deep_view() == gtoks[i as int]);
            assert(t@ == trim_spec(gtoks[i as int]));
        }
        if t.len() > 0 && eq_ignore_case(t.as_slice(), sc.as_slice()) {
            proof {
                let tw = trim_spec(when@);
                assert(0 <= i < when_tokens(tw).len());
                assert(when_tokens(tw)[i as int] == gtoks[i as int]);
                assert(trim_spec(when_tokens(tw)[i as int]).len() > 0);
                assert(lower_seq(trim_spec(when_tokens(tw)[i as int])) == lower_seq(scope@));
            }
            return true;
        }
        i = i + 1;
    }
    false
}

/// Decides how a firing rule is applied: `true` means the structured
/// JSON merge (the rule declares the `json` format, case-insensitively,
/// and the caller holds a merge configuration); `false` means a plain
/// copy of the source file.
pub fn apply_sync(format: &Option<String>, has_merge_cfg: bool) -> (r: bool)
    ensures
        r == (match format {
            Some(f) => lower_seq(f@) == lower_seq("json"@) && has_merge_cfg,
            None => false,
        }),
{
    match format {
        Some(f) => {
            let fc = chars_of(f.as_str());
            let jc = chars_of("json");
            eq_ignore_case(fc.as_slice(), jc.as_slice()) && has_merge_cfg
        },
        None => false,
    }
}

/// Where the checksum sidecar for a target lives: under the root's
/// `.rigra/sync/checksums`, named after the target with `/` folded to
/// `__` plus a `.chk` suffix.
pub open spec fn checksum_path_spec(root: Seq<char>, target_rel: Seq<char>) -> Seq<char> {
    root + "/.rigra/sync/checksums/"@ + replace_spec(target_rel, seq!['/'], seq!['_', '_'])
        + ".chk"@
}

/// Builds the checksum sidecar path for a target.
pub fn checksum_path(root: &str, target_rel: &str) -> (r: String)
    ensures
        r@ == checksum_path_spec(root@, target_rel@),
{
    let mut v: Vec<char> = Vec::new();
    push_chars(&mut v, root);
    push_chars(&mut v, "/.rigra/sync/checksums/");
    let tc = chars_of(target_rel);
    let pat = chars_of("/");
    let rep = chars_of("__");
    proof {
        reveal_strlit("/");
        reveal_strlit("__");
        assert(pat@ =~= seq!['/']);
        assert(rep@ =~= seq!['_', '_']);
    }
    let folded = crate::checks::replace_chars(&tc, &pat, &rep);
    let ghost mid = v@;
    let mut i: usize = 0;
    while i < folded.len()
        invariant
            i <= folded@.len(),
            v@ == mid + folded@.subrange(0, i as int),
        decreases folded@.len() - i,
    {
        v.push(folded[i]);
        proof {
            assert(v@ =~= mid + folded@.subrange(0, i + 1 as int));
        }
        i = i + 1;
    }
    proof {
        assert(folded@.subrange(0, folded@.len() as int) =~= folded@);
    }
    push_chars(&mut v, ".chk");
    proof {
        assert(v@ =~= checksum_path_spec(root@, target_rel@));
    }
    string_from_chars(&v)
}

} // verus!
