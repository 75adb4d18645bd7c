//! Dotted-path addressing over a JSON tree.
//!
//! A path is an optional leading `$`, then dot-separated object keys; the
//! empty path names the whole document. Reads return an absence marker
//! rather than an error; writes create missing intermediate objects, and
//! silently leave the tree unchanged when an existing intermediate is not
//! an object. Deletes of a missing key are a no-op.

use vstd::prelude::*;
use vstd::string::*;
use crate::json::{JsonSpec, JsonValue, deep_entries, lemma_deep_entries, json_clone};
use crate::textutil::{chars_of, string_from_chars, is_space};

verus! {

/// Leading whitespace removed.
pub open spec fn trim_left(s: Seq<char>) -> Seq<char>
    decreases s.len(),
{
    if s.len() > 0 && is_space(s[0]) {
        trim_left(s.drop_first())
    } else {
        s
    }
}

/// Trailing whitespace removed.
pub open spec fn trim_right(s: Seq<char>) -> Seq<char>
    decreases s.len(),
{
    if s.len() > 0 && is_space(s[s.len() - 1]) {
        trim_right(s.drop_last())
    } else {
        s
    }
}

/// Whitespace removed from both ends.
pub open spec fn trim_spec(s: Seq<char>) -> Seq<char> {
    trim_right(trim_left(s))
}

pub proof fn lemma_trim_left_range(s: Seq<char>, lo: int)
    requires
        0 <= lo <= s.len(),
        forall|j: int| 0 <= j < lo ==> is_space(s[j]),
        lo < s.len() ==> !is_space(s[lo]),
    ensures
        trim_left(s) == s.subrange(lo, s.len() as int),
    decreases lo,
{
    if lo == 0 {
        if s.len() > 0 && is_space(s[0]) {
            assert(false);
        }
        assert(s.subrange(0, s.len() as int) =~= s);
    } else {
        assert(is_space(s[0]));
        lemma_trim_left_range(s.drop_first(), lo - 1);
        assert(s.drop_first().subrange(lo - 1, s.drop_first().len() as int) =~= s.subrange(
            lo,
            s.len() as int,
        ));
    }
}

pub proof fn lemma_trim_right_range(s: Seq<char>, hi: int)
    requires
        0 <= hi <= s.len(),
        forall|j: int| hi <= j < s.len() ==> is_space(s[j]),
        hi > 0 ==> !is_space(s[hi - 1]),
    ensures
        trim_right(s) == s.subrange(0, hi),
    decreases s.len() - hi,
{
    if hi == s.len() {
        if s.len() > 0 && is_space(s[s.len() - 1]) {
            assert(false);
        }
        assert(s.subrange(0, s.len() as int) =~= s);
    } else {
        assert(is_space(s[s.len() - 1]));
        lemma_trim_right_range(s.drop_last(), hi);
        assert(s.drop_last().subrange(0, hi) =~= s.subrange(0, hi));
    }
}

/// A leading `$` removed, if present.
pub open spec fn strip_dollar(s: Seq<char>) -> Seq<char> {
    if s.len() > 0 && s[0] == '$' {
        s.drop_first()
    } else {
        s
    }
}

/// Dot-separated split of `p`, empty segments included; splitting the
/// empty text yields one empty segment.
pub open spec fn split_raw(p: Seq<char>) -> Seq<Seq<char>>
    decreases p.len(),
{
    if p.len() == 0 {
        seq![Seq::<char>::empty()]
    } else if p.last() == '.' {
        split_raw(p.drop_last()).push(Seq::empty())
    } else {
        let r = split_raw(p.drop_last());
        r.update(r.len() - 1, r.last().push(p.last()))
    }
}

pub proof fn lemma_split_raw_nonempty(p: Seq<char>)
    ensures
        split_raw(p).len() >= 1,
    decreases p.len(),
{
    if p.len() > 0 {
        lemma_split_raw_nonempty(p.drop_last());
    }
}

/// The empty segments dropped.
pub open spec fn drop_empty(ss: Seq<Seq<char>>) -> Seq<Seq<char>>
    decreases ss.len(),
{
    if ss.len() == 0 {
        Seq::empty()
    } else {
        let rest = drop_empty(ss.drop_last());
        if ss.last().len() == 0 {
            rest
        } else {
            rest.push(ss.last())
        }
    }
}

/// The key segments a path addresses, after trimming and `$` stripping.
pub open spec fn path_segs(p: Seq<char>) -> Seq<Seq<char>> {
    drop_empty(split_raw(strip_dollar(trim_spec(p))))
}

/// Index of the first entry with key `k`, or `es.len()` if absent.
pub open spec fn key_idx(es: Seq<(Seq<char>, JsonSpec)>, k: Seq<char>) -> int
    decreases es.len(),
{
    if es.len() == 0 {
        0
    } else if es[0].0 == k {
        0
    } else {
        1 + key_idx(es.drop_first(), k)
    }
}

pub proof fn lemma_key_idx(es: Seq<(Seq<char>, JsonSpec)>, k: Seq<char>)
    ensures
        0 <= key_idx(es, k) <= es.len(),
        forall|j: int| 0 <= j < key_idx(es, k) ==> es[j].0 != k,
        key_idx(es, k) < es.len() ==> es[key_idx(es, k)].0 == k,
    decreases es.len(),
{
    if es.len() > 0 && es[0].0 != k {
        lemma_key_idx(es.drop_first(), k);
        assert forall|j: int| 0 <= j < key_idx(es, k) implies es[j].0 != k by {
            if j > 0 {
                assert(es.drop_first()[j - 1] == es[j]);
            }
        }
    }
}

/// The value of the first entry with key `k`, if any.
pub open spec fn obj_find(es: Seq<(Seq<char>, JsonSpec)>, k: Seq<char>) -> Option<JsonSpec> {
    if key_idx(es, k) < es.len() {
        Some(es[key_idx(es, k)].1)
    } else {
        None
    }
}

/// `es` with key `k` bound to `w`: in place if present, appended if new.
pub open spec fn obj_put(
    es: Seq<(Seq<char>, JsonSpec)>,
    k: Seq<char>,
    w: JsonSpec,
) -> Seq<(Seq<char>, JsonSpec)> {
    if key_idx(es, k) < es.len() {
        es.update(key_idx(es, k), (k, w))
    } else {
        es.push((k, w))
    }
}

/// `es` with the first entry keyed `k` removed, if present.
pub open spec fn obj_del(es: Seq<(Seq<char>, JsonSpec)>, k: Seq<char>) -> Seq<
    (Seq<char>, JsonSpec),
> {
    if key_idx(es, k) < es.len() {
        es.remove(key_idx(es, k))
    } else {
        es
    }
}

/// The value `segs` addresses in `v`, or `None` when a segment is missing
/// or an intermediate is not an object.
pub open spec fn get_at(v: JsonSpec, segs: Seq<Seq<char>>) -> Option<JsonSpec>
    decreases segs.len(),
{
    if segs.len() == 0 {
        Some(v)
    } else {
        match v {
            JsonSpec::Obj(es) => match obj_find(es, segs[0]) {
                Some(child) => get_at(child, segs.drop_first()),
                None => None,
            },
            _ => None,
        }
    }
}

/// `v` with the value at `segs` replaced by `val`, or deleted when `val`
/// is `None`. Missing intermediates are created for a write; a delete
/// whose parent is missing, and any walk through a non-object, leave the
/// tree as it was.
pub open spec fn set_at(v: JsonSpec, segs: Seq<Seq<char>>, val: Option<JsonSpec>) -> JsonSpec
    decreases segs.len(),
{
    if segs.len() == 0 {
        match val {
            Some(w) => w,
            None => JsonSpec::Null,
        }
    } else {
        match v {
            JsonSpec::Obj(es) => {
                if segs.len() == 1 {
                    match val {
                        Some(w) => JsonSpec::Obj(obj_put(es, segs[0], w)),
                        None => JsonSpec::Obj(obj_del(es, segs[0])),
                    }
                } else {
                    match obj_find(es, segs[0]) {
                        Some(child) => JsonSpec::Obj(
                            obj_put(es, segs[0], set_at(child, segs.drop_first(), val)),
                        ),
                        None => {
                            if val is Some {
                                JsonSpec::Obj(
                                    obj_put(
                                        es,
                                        segs[0],
                                        set_at(JsonSpec::Obj(Seq::empty()), segs.drop_first(), val),
                                    ),
                                )
                            } else {
                                v
                            }
                        },
                    }
                }
            },
            _ => v,
        }
    }
}

/// Whether `c` counts as whitespace.
pub fn is_space_exec(c: char) -> (r: bool)
    ensures
        r == is_space(c),
{
    c == ' ' || c == '\t' || c == '\n' || c == '\r'
}

/// Splits a path string into its key segments.
pub fn parse_path(path: &str) -> (segs: Vec<String>)
    ensures
        segs.deep_view() == path_segs(path@),
{
    let cs = chars_of(path);
    // Trim surrounding whitespace.
    let mut lo: usize = 0;
    while lo < cs.len() && is_space_exec(cs[lo])
        invariant
            lo <= cs@.len(),
            cs@ == path@,
            forall|j: int| 0 <= j < lo ==> is_space(cs@[j]),
        decreases cs@.len() - lo,
    {
        lo = lo + 1;
    }
    let mut hi: usize = cs.len();
    while hi > lo && is_space_exec(cs[hi - 1])
        invariant
            lo <= hi <= cs@.len(),
            cs@ == path@,
            forall|j: int| 0 <= j < lo ==> is_space(cs@[j]),
            lo < cs@.len() ==> !is_space(cs@[lo as int]),
            forall|j: int| hi <= j < cs@.len() ==> is_space(cs@[j]),
        decreases hi,
    {
        hi = hi - 1;
    }
    proof {
        lemma_trim_left_range(cs@, lo as int);
        let t = cs@.subrange(lo as int, cs@.len() as int);
        lemma_trim_right_range(t, hi - lo);
        assert(t.subrange(0, hi - lo) =~= cs@.subrange(lo as int, hi as int));
        if hi > lo {
            assert(!is_space(t[hi - lo - 1]));
        }
    }
    // Skip a leading dollar.
    let mut start: usize = lo;
    if hi > lo && cs[lo] == '$' {
        start = lo + 1;
    }
    proof {
        assert(strip_dollar(trim_spec(path@)) =~= cs@.subrange(start as int, hi as int));
    }
    // Split the remainder on dots, skipping empty segments.
    let ghost body = cs@.subrange(start as int, hi as int);
    let mut segs: Vec<String> = Vec::new();
    let mut pos: usize = start;
    let mut cur: Vec<char> = Vec::new();
    proof {
        assert(body.subrange(0, 0) =~= Seq::<char>::empty());
        assert(segs.deep_view() =~= drop_empty(split_raw(body.subrange(0, 0)).drop_last()));
        assert(split_raw(body.subrange(0, 0)).last() =~= cur@);
    }
    while pos < hi
        invariant
            start <= pos <= hi <= cs@.len(),
            body == cs@.subrange(start as int, hi as int),
            split_raw(body.subrange(0, pos - start)).len() >= 1,
            split_raw(body.subrange(0, pos - start)).last() == cur@,
            segs.deep_view() == drop_empty(split_raw(body.subrange(0, pos - start)).drop_last()),
        decreases hi - pos,
    {
        let ghost prefix = body.subrange(0, pos - start);
        let ghost raw = split_raw(prefix);
        proof {
            lemma_split_raw_nonempty(prefix);
            assert(body.subrange(0, pos + 1 - start).drop_last() =~= prefix);
            assert(body.subrange(0, pos + 1 - start).last() == cs@[pos as int]);
        }
        let c = cs[pos];
        if c == '.' {
            if cur.len() > 0 {
                let s = string_from_chars(&cur);
                segs.push(s);
                cur = Vec::new();
            }
            proof {
                let raw2 = split_raw(body.subrange(0, pos + 1 - start));
                assert(raw2 == raw.push(Seq::<char>::empty()));
                assert(raw2.drop_last() =~= raw);
                assert(drop_empty(raw) == drop_empty(raw.drop_last()) + (
                if raw.last().len() == 0 {
                    Seq::<Seq<char>>::empty()
                } else {
                    seq![raw.last()]
                })) by {
                    if raw.last().len() == 0 {
                        assert(drop_empty(raw) =~= drop_empty(raw.drop_last()));
                    } else {
                        assert(drop_empty(raw) =~= drop_empty(raw.drop_last()).push(raw.last()));
                    }
                }
                assert(segs.deep_view() =~= drop_empty(raw2.drop_last()));
            }
            pos = pos + 1;
        } else {
            cur.push(c);
            pos = pos + 1;
            proof {
                let p2 = body.subrange(0, pos - start);
                let raw2 = split_raw(p2);
                assert(p2.last() == c && p2.last() != '.');
                assert(raw2 == raw.update(raw.len() - 1, raw.last().push(c)));
                assert(raw2.drop_last() =~= raw.drop_last());
                assert(raw2.last() == cur@);
            }
        }
    }
    proof {
        assert(body.subrange(0, hi - start) =~= body);
    }
    if cur.len() > 0 {
        let s = string_from_chars(&cur);
        segs.push(s);
    }
    proof {
        let raw = split_raw(body);
        lemma_split_raw_nonempty(body);
        if raw.last().len() == 0 {
            assert(drop_empty(raw) =~= drop_empty(raw.drop_last()));
        } else {
            assert(drop_empty(raw) =~= drop_empty(raw.drop_last()).push(raw.last()));
        }
        assert(segs.deep_view() =~= path_segs(path@));
    }
    segs
}

/// Index of the first entry of `es` whose key reads `k`, if any.
fn find_key(es: &Vec<(String, JsonValue)>, k: &str) -> (r: Option<usize>)
    ensures
        match r {
            Some(j) => j < es@.len() && es@[j as int].0@ == k@ && (forall|l: int|
                0 <= l < j ==> es@[l].0@ != k@),
            None => forall|l: int| 0 <= l < es@.len() ==> es@[l].0@ != k@,
        },
{
    let mut j: usize = 0;
    while j < es.len()
        invariant
            j <= es@.len(),
            forall|l: int| 0 <= l < j ==> es@[l].0@ != k@,
        decreases es@.len() - j,
    {
        if crate::textutil::str_eq_str(es[j].0.as_str(), k) {
            return Some(j);
        }
        j = j + 1;
    }
    None
}

/// Ties `find_key`'s answer to the model's `key_idx`.
proof fn lemma_find_key_idx(es: Seq<(String, JsonValue)>, k: Seq<char>, r: Option<usize>)
    requires
        match r {
            Some(j) => j < es.len() && es[j as int].0@ == k && (forall|l: int|
                0 <= l < j ==> es[l].0@ != k),
            None => forall|l: int| 0 <= l < es.len() ==> es[l].0@ != k,
        },
    ensures
        match r {
            Some(j) => key_idx(deep_entries(es), k) == j,
            None => key_idx(deep_entries(es), k) == es.len(),
        },
{
    lemma_deep_entries(es);
    lemma_key_idx(deep_entries(es), k);
    let ki = key_idx(deep_entries(es), k);
    match r {
        Some(j) => {
            if ki < j {
                assert(deep_entries(es)[ki].0 == k);
                assert(es[ki].0@ == k);
            }
            if ki > j as int {
                assert(deep_entries(es)[j as int].0 != k);
            }
        },
        None => {
            if ki < es.len() {
                assert(es[ki].0@ == k);
            }
        },
    }
}

/// Reads the value a dotted path addresses inside a tree.
pub fn get_json_path<'a>(json: &'a JsonValue, path: &str) -> (r: Option<&'a JsonValue>)
    ensures
        match r {
            Some(v) => get_at(json.deep(), path_segs(path@)) == Some(v.deep()),
            None => get_at(json.deep(), path_segs(path@)) is None,
        },
{
    let segs = parse_path(path);
    let mut cur: &JsonValue = json;
    let mut i: usize = 0;
    proof {
        assert(segs.deep_view().skip(0) =~= segs.deep_view());
    }
    while i < segs.len()
        invariant
            i <= segs@.len(),
            segs.deep_view() == path_segs(path@),
            get_at(json.deep(), path_segs(path@)) == get_at(
                cur.deep(),
                segs.deep_view().skip(i as int),
            ),
        decreases segs@.len() - i,
    {
        let ghost rest = segs.deep_view().skip(i as int);
        proof {
            assert(rest.len() > 0);
            assert(rest[0] == segs@[i as int]@);
            assert(rest.drop_first() =~= segs.deep_view().skip(i + 1));
        }
        match cur {
            JsonValue::Obj(es) => {
                let f = find_key(es, segs[i].as_str());
                proof {
                    lemma_find_key_idx(es@, rest[0], f);
                    lemma_deep_entries(es@);
                }
                match f {
                    Some(j) => {
                        cur = &es[j].1;
                        i = i + 1;
                    },
                    None => {
                        return None;
                    },
                }
            },
            _ => {
                return None;
            },
        }
    }
    proof {
        assert(segs.deep_view().skip(segs@.len() as int) =~= Seq::<Seq<char>>::empty());
    }
    Some(cur)
}

/// Entry-for-entry copy of an object's entry list.
fn clone_entries(es: &Vec<(String, JsonValue)>) -> (out: Vec<(String, JsonValue)>)
    ensures
        out@.len() == es@.len(),
        forall|i: int|
            0 <= i < es@.len() ==> out@[i].0@ == es@[i].0@ && out@[i].1.deep() == es@[i].1.deep(),
        deep_entries(out@) == deep_entries(es@),
{
    let mut out: Vec<(String, JsonValue)> = Vec::new();
    let mut i: usize = 0;
    while i < es.len()
        invariant
            i <= es@.len(),
            out@.len() == i,
            forall|j: int|
                0 <= j < i ==> out@[j].0@ == es@[j].0@ && out@[j].1.deep() == es@[j].1.deep(),
        decreases es@.len() - i,
    {
        let k = es[i].0.clone();
        let c = json_clone(&es[i].1);
        out.push((k, c));
        i = i + 1;
    }
    proof {
        lemma_deep_entries(out@);
        lemma_deep_entries(es@);
        assert(deep_entries(out@) =~= deep_entries(es@));
    }
    out
}

/// Returns a tree equal to `json` outside the path, with the value at
/// `path` replaced by `val`, or deleted when `val` is `None`.
pub fn set_json_path(json: &JsonValue, path: &str, val: Option<&JsonValue>) -> (r: JsonValue)
    ensures
        r.deep() == set_at(
            json.deep(),
            path_segs(path@),
            match val {
                Some(w) => Some(w.deep()),
                None => None,
            },
        ),
{
    let segs = parse_path(path);
    proof {
        assert(segs.deep_view().skip(0) =~= segs.deep_view());
    }
    set_rec(json, &segs, 0, val)
}

fn set_rec(v: &JsonValue, segs: &Vec<String>, i: usize, val: Option<&JsonValue>) -> (r: JsonValue)
    requires
        i <= segs@.len(),
    ensures
        r.deep() == set_at(
            v.deep(),
            segs.deep_view().skip(i as int),
            match val {
                Some(w) => Some(w.deep()),
                None => None,
            },
        ),
    decreases segs@.len() - i,
{
    let ghost rest = segs.deep_view().skip(i as int);
    let ghost gval: Option<JsonSpec> = match val {
        Some(w) => Some(w.deep()),
        None => None,
    };
    if i == segs.len() {
        proof {
            assert(rest.len() == 0);
        }
        match val {
            Some(w) => json_clone(w),
            None => JsonValue::Null,
        }
    } else {
        proof {
            assert(rest.len() > 0);
            assert(rest[0] == segs@[i as int]@);
            assert(rest.drop_first() =~= segs.deep_view().skip(i + 1));
        }
        match v {
            JsonValue::Obj(es) => {
                let ghost des = deep_entries(es@);
                proof {
                    lemma_deep_entries(es@);
                    lemma_key_idx(des, rest[0]);
                }
                let f = find_key(es, segs[i].as_str());
                proof {
                    lemma_find_key_idx(es@, rest[0], f);
                }
                let last = i + 1 == segs.len();
                match f {
                    Some(j) => {
                        let mut out = clone_entries(es);
                        if last {
                            match val {
                                Some(w) => {
                                    let k = string_clone(&segs[i]);
                                    let c = json_clone(w);
                                    out.set(j, (k, c));
                                    proof {
                                        lemma_deep_entries(out@);
                                        assert(deep_entries(out@) =~= obj_put(
                                            des,
                                            rest[0],
                                            gval->Some_0,
                                        ));
                                    }
                                },
                                None => {
                                    let removed = out.remove(j);
                                    proof {
                                        lemma_deep_entries(out@);
                                        lemma_deep_entries(es@);
                                        assert(deep_entries(out@) =~= obj_del(des, rest[0]));
                                    }
                                },
                            }
                        } else {
                            let k = string_clone(&segs[i]);
                            let sub = set_rec(&es[j].1, segs, i + 1, val);
                            out.set(j, (k, sub));
                            proof {
                                lemma_deep_entries(out@);
                                assert(deep_entries(out@) =~= obj_put(
                                    des,
                                    rest[0],
                                    set_at(des[j as int].1, rest.drop_first(), gval),
                                ));
                            }
                        }
                        JsonValue::Obj(out)
                    },
                    None => {
                        match val {
                            Some(w) => {
                                let mut out = clone_entries(es);
                                let k = string_clone(&segs[i]);
                                let sub = if last {
                                    json_clone(w)
                                } else {
                                    let empty = JsonValue::Obj(Vec::new());
                                    proof {
                                        assert(deep_entries(empty->Obj_0@) =~= Seq::<(
                                            Seq<char>,
                                            JsonSpec,
                                        )>::empty()) by {
                                            assert(empty->Obj_0@ =~= Seq::<(
                                                String,
                                                JsonValue,
                                            )>::empty());
                                        }
                                    }
                                    set_rec(&empty, segs, i + 1, val)
                                };
                                out.push((k, sub));
                                proof {
                                    lemma_deep_entries(out@);
                                    if last {
                                        assert(deep_entries(out@) =~= obj_put(
                                            des,
                                            rest[0],
                                            gval->Some_0,
                                        ));
                                    } else {
                                        assert(deep_entries(out@) =~= obj_put(
                                            des,
                                            rest[0],
                                            set_at(
                                                JsonSpec::Obj(Seq::empty()),
                                                rest.drop_first(),
                                                gval,
                                            ),
                                        ));
                                    }
                                }
                                JsonValue::Obj(out)
                            },
                            None => {
                                // Deleting under a missing key changes nothing.
                                let c = json_clone(v);
                                proof {
                                    if last {
                                        assert(obj_del(des, rest[0]) =~= des);
                                    }
                                }
                                c
                            },
                        }
                    },
                }
            },
            _ => {
                json_clone(v)
            },
        }
    }
}

/// A copy of one string.
fn string_clone(s: &String) -> (r: String)
    ensures
        r@ == s@,
{
    s.clone()
}

} // verus!
