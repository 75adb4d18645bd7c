//! Convention references and cache paths.
//!
//! A convention reference reads `conv:name@ver` with an optional
//! `:subpath`; scoped names such as `@owner/name` keep their `@`, so the
//! version is split off at the last `@`. Installed conventions live
//! under `<repo>/.rigra/conv/<name>@<ver>/`, with `/` in names folded to
//! `__` for the cache directory.

use vstd::prelude::*;
use vstd::string::*;
use crate::textutil::{chars_of, string_from_chars, push_chars};
use crate::checks::replace_spec;

verus! {

broadcast use crate::textutil::lemma_char_vec_deep_view;

/// A parsed `conv:` reference.
pub struct ConvRef {
    pub name: String,
    pub ver: String,
    pub subpath: String,
}

/// A convention source: a tagged repository archive or a local file.
pub enum Source {
    Gh { owner: String, repo: String, tag: String },
    File { path: String },
}

/// Index of the first occurrence of `c`, or `s.len()` when absent.
pub open spec fn first_idx(s: Seq<char>, c: char) -> int
    decreases s.len(),
{
    if s.len() == 0 {
        0
    } else if s[0] == c {
        0
    } else {
        1 + first_idx(s.drop_first(), c)
    }
}

pub proof fn lemma_first_idx(s: Seq<char>, c: char)
    ensures
        0 <= first_idx(s, c) <= s.len(),
        forall|j: int| 0 <= j < first_idx(s, c) ==> s[j] != c,
        first_idx(s, c) < s.len() ==> s[first_idx(s, c)] == c,
    decreases s.len(),
{
    if s.len() > 0 && s[0] != c {
        lemma_first_idx(s.drop_first(), c);
        assert forall|j: int| 0 <= j < first_idx(s, c) implies s[j] != c by {
            if j > 0 {
                assert(s.drop_first()[j - 1] == s[j]);
            }
        }
    }
}

/// Index of the last occurrence of `c`, or `-1` when absent.
pub open spec fn last_idx(s: Seq<char>, c: char) -> int
    decreases s.len(),
{
    if s.len() == 0 {
        -1
    } else if s.last() == c {
        s.len() - 1
    } else {
        last_idx(s.drop_last(), c)
    }
}

/// The parsed parts of a `conv:` reference: name, version, subpath.
pub open spec fn conv_ref_spec(s: Seq<char>) -> Option<(Seq<char>, Seq<char>, Seq<char>)> {
    if !(s.len() >= 5 && s.subrange(0, 5) == "conv:"@) {
        None
    } else {
        let body = s.skip(5);
        let ci = first_idx(body, ':');
        let nv = body.subrange(0, ci);
        let sp = if ci < body.len() {
            body.skip(ci + 1)
        } else {
            "index.toml"@
        };
        let ai = last_idx(nv, '@');
        if ai < 0 {
            None
        } else {
            Some((nv.subrange(0, ai), nv.skip(ai + 1), sp))
        }
    }
}

/// Parses a `conv:name@ver[:subpath]` reference; the subpath defaults
/// to `index.toml`. Scoped names split at the last `@`.
pub fn parse_conv_ref(s: &str) -> (r: Option<ConvRef>)
    ensures
        match r {
            Some(cr) => conv_ref_spec(s@) == Some((cr.name@, cr.ver@, cr.subpath@)),
            None => conv_ref_spec(s@) is None,
        },
{
    let cs = chars_of(s);
    let pre = chars_of("conv:");
    if !crate::scan::starts_with_exec(&cs, &pre) {
        proof {
            reveal_strlit("conv:");
            assert(!(s@.len() >= 5 && s@.subrange(0, 5) == "conv:"@));
        }
        return None;
    }
    proof {
        reveal_strlit("conv:");
        assert(s@.len() >= 5 && s@.subrange(0, 5) == "conv:"@);
    }
    let ghost body = s@.skip(5);
    // Find the subpath separator, the first colon after the prefix.
    let mut ci: usize = 5;
    while ci < cs.len() && cs[ci] != ':'
        invariant
            5 <= ci <= cs@.len(),
            cs@ == s@,
            forall|j: int| 5 <= j < ci ==> cs@[j] != ':',
        decreases cs@.len() - ci,
    {
        ci = ci + 1;
    }
    proof {
        lemma_first_idx(body, ':');
        lemma_first_span(body, ':', ci - 5);
    }
    // Split name@ver at the last at-sign.
    let mut ai: usize = ci;
    let mut found_at = false;
    while ai > 5 && !found_at
        invariant
            5 <= ai <= ci <= cs@.len(),
            cs@ == s@,
            !found_at ==> forall|j: int| ai <= j < ci ==> cs@[j] != '@',
            found_at ==> 5 <= ai && ai < ci && cs@[ai as int] == '@' && (forall|j: int|
                ai < j < ci ==> cs@[j] != '@'),
        decreases ai,
    {
        if cs[ai - 1] == '@' {
            ai = ai - 1;
            found_at = true;
        } else {
            ai = ai - 1;
        }
    }
    let ghost nv = body.subrange(0, ci - 5);
    proof {
        lemma_last_span(nv, '@', if found_at { ai - 5 } else { -1 });
    }
    if !found_at {
        return None;
    }
    // Assemble the pieces.
    let mut namev: Vec<char> = Vec::new();
    let mut x: usize = 5;
    while x < ai
        invariant
            5 <= x <= ai <= cs@.len(),
            cs@ == s@,
            namev@ == cs@.subrange(5, x as int),
        decreases ai - x,
    {
        namev.push(cs[x]);
        proof {
            assert(namev@ =~= cs@.subrange(5, x + 1 as int));
        }
        x = x + 1;
    }
    let mut verv: Vec<char> = Vec::new();
    let mut y: usize = ai + 1;
    while y < ci
        invariant
            ai + 1 <= y <= ci <= cs@.len(),
            cs@ == s@,
            verv@ == cs@.subrange(ai + 1, y as int),
        decreases ci - y,
    {
        verv.push(cs[y]);
        proof {
            assert(verv@ =~= cs@.subrange(ai + 1, y + 1 as int));
        }
        y = y + 1;
    }
    let subpath: String = if ci < cs.len() {
        let mut spv: Vec<char> = Vec::new();
        let mut z: usize = ci + 1;
        while z < cs.len()
            invariant
                ci + 1 <= z <= cs@.len(),
                cs@ == s@,
                spv@ == cs@.subrange(ci + 1, z as int),
            decreases cs@.len() - z,
        {
            spv.push(cs[z]);
            proof {
                assert(spv@ =~= cs@.subrange(ci + 1, z + 1 as int));
            }
            z = z + 1;
        }
        string_from_chars(&spv)
    } else {
        String::from_str("index.toml")
    };
    proof {
        assert(namev@ =~= nv.subrange(0, ai - 5));
        assert(verv@ =~= nv.skip(ai - 5 + 1));
        if ci < cs@.len() {
            assert(subpath@ =~= body.skip(ci - 5 + 1));
        }
    }
    Some(
        ConvRef { name: string_from_chars(&namev), ver: string_from_chars(&verv), subpath },
    )
}

proof fn lemma_first_span(s: Seq<char>, c: char, i: int)
    requires
        0 <= i <= s.len(),
        forall|j: int| 0 <= j < i ==> s[j] != c,
        i < s.len() ==> s[i] == c,
    ensures
        first_idx(s, c) == i,
    decreases i,
{
    if i > 0 {
        lemma_first_span(s.drop_first(), c, i - 1);
    } else {
        lemma_first_idx(s, c);
    }
}

proof fn lemma_last_span(s: Seq<char>, c: char, i: int)
    requires
        -1 <= i < s.len(),
        forall|j: int| i < j < s.len() ==> s[j] != c,
        i >= 0 ==> s[i] == c,
    ensures
        last_idx(s, c) == i,
    decreases s.len(),
{
    if s.len() > 0 {
        if i == s.len() - 1 {
        } else {
            assert(s.last() != c);
            lemma_last_span(s.drop_last(), c, i);
        }
    }
}

/// The parsed parts of a source string.
pub open spec fn source_spec(s: Seq<char>) -> Option<(bool, Seq<char>, Seq<char>, Seq<char>)> {
    if s.len() >= 3 && s.subrange(0, 3) == "gh:"@ {
        let rest = s.skip(3);
        let at = first_idx(rest, '@');
        if at >= rest.len() {
            None
        } else {
            let or = rest.subrange(0, at);
            let tag = rest.skip(at + 1);
            let sl = first_idx(or, '/');
            if sl >= or.len() {
                None
            } else {
                Some((true, or.subrange(0, sl), or.skip(sl + 1), tag))
            }
        }
    } else if s.len() >= 5 && s.subrange(0, 5) == "file:"@ {
        Some((false, s.skip(5), Seq::empty(), Seq::empty()))
    } else {
        None
    }
}

/// Parses `gh:owner/repo@tag` or `file:<path>`.
pub fn parse_source(s: &str) -> (r: Option<Source>)
    ensures
        match r {
            Some(Source::Gh { owner, repo, tag }) => source_spec(s@) == Some(
                (true, owner@, repo@, tag@),
            ),
            Some(Source::File { path }) => source_spec(s@) == Some(
                (false, path@, Seq::<char>::empty(), Seq::<char>::empty()),
            ),
            None => source_spec(s@) is None,
        },
{
    let cs = chars_of(s);
    let gh = chars_of("gh:");
    let fl = chars_of("file:");
    if crate::scan::starts_with_exec(&cs, &gh) {
        proof {
            reveal_strlit("gh:");
            assert(s@.len() >= 3 && s@.subrange(0, 3) == "gh:"@);
        }
        let ghost rest = s@.skip(3);
        // The tag follows the first at-sign.
        let mut at: usize = 3;
        while at < cs.len() && cs[at] != '@'
            invariant
                3 <= at <= cs@.len(),
                cs@ == s@,
                forall|j: int| 3 <= j < at ==> cs@[j] != '@',
            decreases cs@.len() - at,
        {
            at = at + 1;
        }
        proof {
            lemma_first_span(rest, '@', at - 3);
        }
        if at >= cs.len() {
            return None;
        }
        // The repository follows the first slash of the owner part.
        let mut sl: usize = 3;
        while sl < at && cs[sl] != '/'
            invariant
                3 <= sl <= at <= cs@.len(),
                cs@ == s@,
                forall|j: int| 3 <= j < sl ==> cs@[j] != '/',
            decreases at - sl,
        {
            sl = sl + 1;
        }
        let ghost or = rest.subrange(0, at - 3);
        proof {
            lemma_first_span(or, '/', sl - 3);
        }
        if sl >= at {
            return None;
        }
        let mut ownerv: Vec<char> = Vec::new();
        let mut x: usize = 3;
        while x < sl
            invariant
                3 <= x <= sl <= cs@.len(),
                cs@ == s@,
                ownerv@ == cs@.subrange(3, x as int),
            decreases sl - x,
        {
            ownerv.push(cs[x]);
            proof {
                assert(ownerv@ =~= cs@.subrange(3, x + 1 as int));
            }
            x = x + 1;
        }
        let mut repov: Vec<char> = Vec::new();
        let mut y: usize = sl + 1;
        while y < at
            invariant
                sl + 1 <= y <= at <= cs@.len(),
                cs@ == s@,
                repov@ == cs@.subrange(sl + 1, y as int),
            decreases at - y,
        {
            repov.push(cs[y]);
            proof {
                assert(repov@ =~= cs@.subrange(sl + 1, y + 1 as int));
            }
            y = y + 1;
        }
        let mut tagv: Vec<char> = Vec::new();
        let mut z: usize = at + 1;
        while z < cs.len()
            invariant
                at + 1 <= z <= cs@.len(),
                cs@ == s@,
                tagv@ == cs@.subrange(at + 1, z as int),
            decreases cs@.len() - z,
        {
            tagv.push(cs[z]);
            proof {
                assert(tagv@ =~= cs@.subrange(at + 1, z + 1 as int));
            }
            z = z + 1;
        }
        proof {
            assert(ownerv@ =~= or.subrange(0, sl - 3));
            assert(repov@ =~= or.skip(sl - 3 + 1));
            assert(tagv@ =~= rest.skip(at - 3 + 1));
        }
        Some(
            Source::Gh {
                owner: string_from_chars(&ownerv),
                repo: string_from_chars(&repov),
                tag: string_from_chars(&tagv),
            },
        )
    } else if crate::scan::starts_with_exec(&cs, &fl) {
        proof {
            reveal_strlit("gh:");
            reveal_strlit("file:");
            assert(s@.len() >= 5 && s@.subrange(0, 5) == "file:"@);
            assert(!(s@.len() >= 3 && s@.subrange(0, 3) == "gh:"@));
        }
        let mut pathv: Vec<char> = Vec::new();
        let mut z: usize = 5;
        while z < cs.len()
            invariant
                5 <= z <= cs@.len(),
                cs@ == s@,
                pathv@ == cs@.subrange(5, z as int),
            decreases cs@.len() - z,
        {
            pathv.push(cs[z]);
            proof {
                assert(pathv@ =~= cs@.subrange(5, z + 1 as int));
            }
            z = z + 1;
        }
        proof {
            assert(pathv@ =~= s@.skip(5));
        }
        Some(Source::File { path: string_from_chars(&pathv) })
    } else {
        proof {
            reveal_strlit("gh:");
            reveal_strlit("file:");
        }
        None
    }
}

/// The cache directory key for a convention: the name with `/` folded
/// to `__`, an `@`, and the version.
pub open spec fn cache_key_spec(name: Seq<char>, ver: Seq<char>) -> Seq<char> {
    replace_spec(name, seq!['/'], seq!['_', '_']) + seq!['@'] + ver
}

/// Builds the cache key for `name@ver`.
pub fn cache_key(name: &str, ver: &str) -> (r: String)
    ensures
        r@ == cache_key_spec(name@, ver@),
{
    let nc = chars_of(name);
    let pat = chars_of("/");
    let rep = chars_of("__");
    let safe = crate::checks::replace_chars(&nc, &pat, &rep);
    let mut out = safe;
    out.push('@');
    push_chars(&mut out, ver);
    proof {
        reveal_strlit("/");
        reveal_strlit("__");
        assert(pat@ =~= seq!['/']);
        assert(rep@ =~= seq!['_', '_']);
        assert(out@ =~= cache_key_spec(name@, ver@));
    }
    string_from_chars(&out)
}

/// The root of the convention cache under a repository.
pub open spec fn cache_root_spec(repo_root: Seq<char>) -> Seq<char> {
    repo_root + "/.rigra/conv"@
}

/// Builds the cache root path for a repository.
pub fn cache_root(repo_root: &str) -> (r: String)
    ensures
        r@ == cache_root_spec(repo_root@),
{
    let mut v: Vec<char> = Vec::new();
    push_chars(&mut v, repo_root);
    push_chars(&mut v, "/.rigra/conv");
    proof {
        assert(v@ =~= cache_root_spec(repo_root@));
    }
    string_from_chars(&v)
}

/// Where a reference's subpath lives inside the cache.
pub open spec fn resolve_path_spec(
    repo_root: Seq<char>,
    name: Seq<char>,
    ver: Seq<char>,
    subpath: Seq<char>,
) -> Seq<char> {
    cache_root_spec(repo_root) + seq!['/'] + cache_key_spec(name, ver) + seq!['/'] + subpath
}

/// Builds the on-disk path a convention reference resolves to.
pub fn resolve_path(repo_root: &str, cr: &ConvRef) -> (r: String)
    ensures
        r@ == resolve_path_spec(repo_root@, cr.name@, cr.ver@, cr.subpath@),
{
    let mut v: Vec<char> = Vec::new();
    let root = cache_root(repo_root);
    push_chars(&mut v, root.as_str());
    v.push('/');
    let key = cache_key(cr.name.as_str(), cr.ver.as_str());
    push_chars(&mut v, key.as_str());
    v.push('/');
    push_chars(&mut v, cr.subpath.as_str());
    proof {
        assert(v@ =~= resolve_path_spec(repo_root@, cr.name@, cr.ver@, cr.subpath@));
    }
    string_from_chars(&v)
}

} // verus!
