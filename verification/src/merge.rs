//! Path-addressed reconciliation of a template with a destination.
//!
//! The merge starts from the template, re-asserts the template's own
//! values at override paths, takes the destination's values (or deletes)
//! at keep and no-sync paths, and applies per-path array strategies:
//! `union` keeps the destination's elements in order and appends the
//! template elements not already present, anything else takes the
//! template's array. The canonical text of the result is fingerprinted
//! so an unchanged destination is not rewritten.

use vstd::prelude::*;
use vstd::string::*;
use crate::json::{JsonSpec, JsonValue, deep_list, deep_entries, lemma_deep_list,
    lemma_deep_entries, json_clone, json_eq};
use crate::path::{get_at, set_at, path_segs, get_json_path, set_json_path};
use crate::pretty::{EntrySpec, RenderEntry, document_text, vhead, vtail, join_lines,
    render_document_lines, join_lines_exec, render_value_block};
use crate::fingerprint::{fingerprint, fingerprint_spec};
use crate::textutil::{string_from_chars, str_eq_str};

verus! {

broadcast use crate::textutil::lemma_char_vec_deep_view;

/// Path lists and array strategies steering one merge.
pub struct MergeConfig {
    pub override_paths: Vec<String>,
    pub keep_paths: Vec<String>,
    pub nosync_paths: Vec<String>,
    pub array_strategy: Vec<(String, String)>,
}

/// One override step: the template's own value re-asserted at `p`.
pub open spec fn ov_one(res: JsonSpec, tpl: JsonSpec, p: Seq<char>) -> JsonSpec {
    match get_at(tpl, path_segs(p)) {
        Some(v) => set_at(res, path_segs(p), Some(v)),
        None => res,
    }
}

/// Override steps applied left to right.
pub open spec fn ov_pass(res: JsonSpec, tpl: JsonSpec, ps: Seq<Seq<char>>) -> JsonSpec
    decreases ps.len(),
{
    if ps.len() == 0 {
        res
    } else {
        ov_pass(ov_one(res, tpl, ps[0]), tpl, ps.drop_first())
    }
}

/// One keep step: the destination's value wins at `p`; a destination
/// without a value there deletes the path from the result.
pub open spec fn keep_one(res: JsonSpec, dst: JsonSpec, p: Seq<char>) -> JsonSpec {
    match get_at(dst, path_segs(p)) {
        Some(v) => set_at(res, path_segs(p), Some(v)),
        None => set_at(res, path_segs(p), None),
    }
}

/// Keep steps applied left to right.
pub open spec fn keep_pass(res: JsonSpec, dst: JsonSpec, ps: Seq<Seq<char>>) -> JsonSpec
    decreases ps.len(),
{
    if ps.len() == 0 {
        res
    } else {
        keep_pass(keep_one(res, dst, ps[0]), dst, ps.drop_first())
    }
}

/// Whether `s` holds an element equal to `v`.
pub open spec fn has_elem(s: Seq<JsonSpec>, v: JsonSpec) -> bool {
    exists|j: int| 0 <= j < s.len() && s[j] == v
}

/// `base` extended by each item not already present, in item order.
pub open spec fn add_unique(base: Seq<JsonSpec>, items: Seq<JsonSpec>) -> Seq<JsonSpec>
    decreases items.len(),
{
    if items.len() == 0 {
        base
    } else {
        add_unique(
            if has_elem(base, items[0]) {
                base
            } else {
                base.push(items[0])
            },
            items.drop_first(),
        )
    }
}

/// The destination's array elements at `p`, or nothing.
pub open spec fn dst_elems(dst: JsonSpec, p: Seq<char>) -> Seq<JsonSpec> {
    match get_at(dst, path_segs(p)) {
        Some(JsonSpec::Arr(da)) => da,
        _ => Seq::empty(),
    }
}

/// One array-strategy step.
pub open spec fn arr_one(
    res: JsonSpec,
    tpl: JsonSpec,
    dst: JsonSpec,
    p: Seq<char>,
    strat: Seq<char>,
) -> JsonSpec {
    if strat == "union"@ {
        match get_at(tpl, path_segs(p)) {
            Some(JsonSpec::Arr(sa)) => set_at(
                res,
                path_segs(p),
                Some(JsonSpec::Arr(add_unique(dst_elems(dst, p), sa))),
            ),
            _ => res,
        }
    } else {
        match get_at(tpl, path_segs(p)) {
            Some(v) => set_at(res, path_segs(p), Some(v)),
            None => res,
        }
    }
}

/// Array-strategy steps applied left to right.
pub open spec fn arr_pass(
    res: JsonSpec,
    tpl: JsonSpec,
    dst: JsonSpec,
    entries: Seq<(Seq<char>, Seq<char>)>,
) -> JsonSpec
    decreases entries.len(),
{
    if entries.len() == 0 {
        res
    } else {
        arr_pass(
            arr_one(res, tpl, dst, entries[0].0, entries[0].1),
            tpl,
            dst,
            entries.drop_first(),
        )
    }
}

/// The reconciled document: overrides, then keeps, then no-syncs, then
/// array strategies, each pass refining the previous result.
pub open spec fn merge_spec(
    tpl: JsonSpec,
    dst: JsonSpec,
    ov: Seq<Seq<char>>,
    keep: Seq<Seq<char>>,
    nosync: Seq<Seq<char>>,
    arrs: Seq<(Seq<char>, Seq<char>)>,
) -> JsonSpec {
    arr_pass(
        keep_pass(keep_pass(ov_pass(tpl, tpl, ov), dst, keep), dst, nosync),
        tpl,
        dst,
        arrs,
    )
}

/// Computes the reconciled document. A missing destination is handled
/// by passing `JsonValue::Null` for it.
pub fn merge_documents(template: &JsonValue, dest: &JsonValue, cfg: &MergeConfig) -> (r: JsonValue)
    ensures
        r.deep() == merge_spec(
            template.deep(),
            dest.deep(),
            cfg.override_paths.deep_view(),
            cfg.keep_paths.deep_view(),
            cfg.nosync_paths.deep_view(),
            cfg.array_strategy.deep_view(),
        ),
{
    let mut res = json_clone(template);
    // Overrides: re-assert the template's own values.
    let ghost ovs = cfg.override_paths.deep_view();
    proof {
        assert(ovs.skip(0) =~= ovs);
    }
    let mut i: usize = 0;
    while i < cfg.override_paths.len()
        invariant
            i <= cfg.override_paths@.len(),
            ovs == cfg.override_paths.deep_view(),
            ovs.len() == cfg.override_paths@.len(),
            ov_pass(res.deep(), template.deep(), ovs.skip(i as int)) == ov_pass(
                template.deep(),
                template.deep(),
                ovs,
            ),
        decreases cfg.override_paths@.len() - i,
    {
        let ghost rest = ovs.skip(i as int);
        proof {
            assert(rest[0] == cfg.override_paths@[i as int]@);
            assert(rest.drop_first() =~= ovs.skip(i + 1));
        }
        let p = cfg.override_paths[i].as_str();
        match get_json_path(template, p) {
            Some(v) => {
                res = set_json_path(&res, p, Some(v));
            },
            None => {},
        }
        i = i + 1;
    }
    proof {
        assert(ovs.skip(ovs.len() as int) =~= Seq::<Seq<char>>::empty());
    }
    // Keeps, then no-syncs: the destination wins or the path is dropped.
    let res1 = keep_pass_exec(res, dest, &cfg.keep_paths);
    let mut res2 = keep_pass_exec(res1, dest, &cfg.nosync_paths);
    // Array strategies.
    let ghost arrs = cfg.array_strategy.deep_view();
    proof {
        assert(arrs.skip(0) =~= arrs);
    }
    let mut a: usize = 0;
    while a < cfg.array_strategy.len()
        invariant
            a <= cfg.array_strategy@.len(),
            arrs == cfg.array_strategy.deep_view(),
            arrs.len() == cfg.array_strategy@.len(),
            arr_pass(res2.deep(), template.deep(), dest.deep(), arrs.skip(a as int)) == arr_pass(
                keep_pass(
                    keep_pass(
                        ov_pass(template.deep(), template.deep(), ovs),
                        dest.deep(),
                        cfg.keep_paths.deep_view(),
                    ),
                    dest.deep(),
                    cfg.nosync_paths.deep_view(),
                ),
                template.deep(),
                dest.deep(),
                arrs,
            ),
        decreases cfg.array_strategy@.len() - a,
    {
        let ghost rest = arrs.skip(a as int);
        proof {
            assert(rest[0] == (cfg.array_strategy@[a as int].0@, cfg.array_strategy@[a as int].1@));
            assert(rest.drop_first() =~= arrs.skip(a + 1));
        }
        let p = cfg.array_strategy[a].0.as_str();
        let strat = cfg.array_strategy[a].1.as_str();
        if str_eq_str(strat, "union") {
            match get_json_path(template, p) {
                Some(tv) => {
                    match tv {
                        JsonValue::Arr(sa) => {
                            // Start from the destination's elements.
                            let mut merged: Vec<JsonValue> = Vec::new();
                            let ghost base = dst_elems(dest.deep(), p@);
                            match get_json_path(dest, p) {
                                Some(dv) => {
                                    match dv {
                                        JsonValue::Arr(da) => {
                                            proof {
                                                lemma_deep_list(da@);
                                            }
                                            let mut d: usize = 0;
                                            while d < da.len()
                                                invariant
                                                    d <= da@.len(),
                                                    base == deep_list(da@),
                                                    deep_list(da@).len() == da@.len(),
                                                    forall|l: int|
                                                        0 <= l < da@.len() ==> deep_list(da@)[l]
                                                            == da@[l].deep(),
                                                    merged@.len() == d,
                                                    forall|l: int|
                                                        0 <= l < d ==> merged@[l].deep() == da@[
                                                            l
                                                        ].deep(),
                                                decreases da@.len() - d,
                                            {
                                                let c = json_clone(&da[d]);
                                                merged.push(c);
                                                d = d + 1;
                                            }
                                            proof {
                                                lemma_deep_list(merged@);
                                                assert(deep_list(merged@) =~= base);
                                            }
                                        },
                                        _ => {
                                            proof {
                                                lemma_deep_list(merged@);
                                                assert(deep_list(merged@) =~= base);
                                            }
                                        },
                                    }
                                },
                                None => {
                                    proof {
                                        lemma_deep_list(merged@);
                                        assert(deep_list(merged@) =~= base);
                                    }
                                },
                            }
                            // Append template elements not already present.
                            let ghost sas = deep_list(sa@);
                            proof {
                                lemma_deep_list(sa@);
                                assert(sas.skip(0) =~= sas);
                            }
                            let mut s: usize = 0;
                            while s < sa.len()
                                invariant
                                    s <= sa@.len(),
                                    sas == deep_list(sa@),
                                    sas.len() == sa@.len(),
                                    forall|l: int| 0 <= l < sa@.len() ==> sas[l] == sa@[l].deep(),
                                    add_unique(deep_list(merged@), sas.skip(s as int))
                                        == add_unique(base, sas),
                                decreases sa@.len() - s,
                            {
                                let ghost rest2 = sas.skip(s as int);
                                let ghost mpre = deep_list(merged@);
                                proof {
                                    assert(rest2[0] == sa@[s as int].deep());
                                    assert(rest2.drop_first() =~= sas.skip(s + 1));
                                    lemma_deep_list(merged@);
                                }
                                let mut found = false;
                                let mut m: usize = 0;
                                while m < merged.len()
                                    invariant
                                        m <= merged@.len(),
                                        mpre == deep_list(merged@),
                                        s < sa@.len(),
                                        deep_list(merged@).len() == merged@.len(),
                                        forall|l: int|
                                            0 <= l < merged@.len() ==> deep_list(merged@)[l]
                                                == merged@[l].deep(),
                                        found == exists|l: int|
                                            0 <= l < m && deep_list(merged@)[l] == sa@[
                                                s as int
                                            ].deep(),
                                    decreases merged@.len() - m,
                                {
                                    let e = json_eq(&merged[m], &sa[s]);
                                    proof {
                                        if e {
                                            assert(deep_list(merged@)[m as int] == sa@[
                                                s as int
                                            ].deep());
                                        }
                                    }
                                    found = found || e;
                                    m = m + 1;
                                }
                                proof {
                                    assert(found == has_elem(mpre, rest2[0]));
                                }
                                if !found {
                                    let c = json_clone(&sa[s]);
                                    let ghost gm = merged@;
                                    merged.push(c);
                                    proof {
                                        lemma_deep_list(merged@);
                                        lemma_deep_list(gm);
                                        assert(merged@.drop_last() =~= gm);
                                        lemma_push_elem(merged@, mpre, rest2[0]);
                                    }
                                }
                                s = s + 1;
                            }
                            proof {
                                assert(sas.skip(sas.len() as int) =~= Seq::<JsonSpec>::empty());
                                assert(deep_list(merged@) == add_unique(base, sas));
                            }
                            let unioned = JsonValue::Arr(merged);
                            res2 = set_json_path(&res2, p, Some(&unioned));
                        },
                        _ => {},
                    }
                },
                None => {},
            }
        } else {
            match get_json_path(template, p) {
                Some(v) => {
                    res2 = set_json_path(&res2, p, Some(v));
                },
                None => {},
            }
        }
        a = a + 1;
    }
    proof {
        assert(arrs.skip(arrs.len() as int) =~= Seq::<(Seq<char>, Seq<char>)>::empty());
    }
    res2
}

/// A pushed clone extends the element model by the cloned element.
proof fn lemma_push_elem(now: Seq<JsonValue>, pre: Seq<JsonSpec>, e: JsonSpec)
    requires
        now.len() > 0,
        deep_list(now.drop_last()) == pre,
        now.last().deep() == e,
    ensures
        deep_list(now) == pre.push(e),
{
    lemma_deep_list(now);
    lemma_deep_list(now.drop_last());
    assert forall|i: int| 0 <= i < now.len() - 1 implies #[trigger] deep_list(now)[i]
        == pre[i] by {
        assert(now.drop_last()[i] == now[i]);
        assert(deep_list(now.drop_last())[i] == now.drop_last()[i].deep());
    }
    assert(deep_list(now) =~= pre.push(e));
}

/// Applies keep steps for each path in order.
fn keep_pass_exec(res: JsonValue, dest: &JsonValue, paths: &Vec<String>) -> (r: JsonValue)
    ensures
        r.deep() == keep_pass(res.deep(), dest.deep(), paths.deep_view()),
{
    let ghost ps = paths.deep_view();
    let ghost start = res.deep();
    proof {
        assert(ps.skip(0) =~= ps);
    }
    let mut cur = res;
    let mut i: usize = 0;
    while i < paths.len()
        invariant
            i <= paths@.len(),
            ps == paths.deep_view(),
            ps.len() == paths@.len(),
            keep_pass(cur.deep(), dest.deep(), ps.skip(i as int)) == keep_pass(
                start,
                dest.deep(),
                ps,
            ),
        decreases paths@.len() - i,
    {
        let ghost rest = ps.skip(i as int);
        proof {
            assert(rest[0] == paths@[i as int]@);
            assert(rest.drop_first() =~= ps.skip(i + 1));
        }
        let p = paths[i].as_str();
        match get_json_path(dest, p) {
            Some(v) => {
                cur = set_json_path(&cur, p, Some(v));
            },
            None => {
                cur = set_json_path(&cur, p, None);
            },
        }
        i = i + 1;
    }
    proof {
        assert(ps.skip(ps.len() as int) =~= Seq::<Seq<char>>::empty());
    }
    cur
}

/// The canonical one-blank-free rendering of a value: objects get one
/// key per line, no blank lines anywhere.
pub open spec fn plain_plan(es: Seq<(Seq<char>, JsonSpec)>) -> Seq<EntrySpec> {
    Seq::new(
        es.len(),
        |i: int|
            EntrySpec { key: es[i].0, value: es[i].1, blank: false, child_blanks: Seq::empty() },
    )
}

/// The canonical text of any value.
pub open spec fn canonical_text(v: JsonSpec) -> Seq<char> {
    match v {
        JsonSpec::Obj(es) => document_text(plain_plan(es)),
        _ => join_lines(seq![vhead(v)] + vtail(v, Seq::empty(), Seq::empty())),
    }
}

/// Renders a value canonically, no blank lines.
pub fn render_canonical(v: &JsonValue) -> (r: String)
    ensures
        r@ == canonical_text(v.deep()),
{
    let t: Vec<char> = match v {
        JsonValue::Obj(es) => {
            let ghost des = deep_entries(es@);
            proof {
                lemma_deep_entries(es@);
            }
            let mut plan: Vec<RenderEntry> = Vec::new();
            let mut i: usize = 0;
            while i < es.len()
                invariant
                    i <= es@.len(),
                    v == JsonValue::Obj(*es),
                    des == deep_entries(es@),
                    des.len() == es@.len(),
                    forall|j: int| 0 <= j < es@.len() ==> des[j] == (es@[j].0@, es@[j].1.deep()),
                    plan@.len() == i,
                    forall|j: int| 0 <= j < i ==> #[trigger] plan@[j].deep_view() == plain_plan(
                        des,
                    )[j],
                decreases es@.len() - i,
            {
                let k = es[i].0.clone();
                let c = json_clone(&es[i].1);
                let entry = RenderEntry {
                    key: k,
                    value: c,
                    blank_before: false,
                    child_blanks: Vec::new(),
                };
                proof {
                    assert(entry.deep_view() == plain_plan(des)[i as int]);
                }
                plan.push(entry);
                i = i + 1;
            }
            let ls = render_document_lines(&plan);
            proof {
                assert(plan.deep_view() =~= plain_plan(des));
            }
            join_lines_exec(&ls)
        },
        _ => {
            let empty_ind: Vec<char> = Vec::new();
            let empty_blanks: Vec<bool> = Vec::new();
            let (h, t0) = render_value_block(v, &empty_ind, &empty_blanks);
            let mut ls: Vec<Vec<char>> = Vec::new();
            proof {
                assert(h.deep_view() == h@);
            }
            ls.push(h);
            crate::pretty::append_lines(&mut ls, t0);
            proof {
                assert(ls.deep_view() =~= seq![vhead(v.deep())] + vtail(
                    v.deep(),
                    Seq::empty(),
                    Seq::empty(),
                ));
            }
            join_lines_exec(&ls)
        },
    };
    string_from_chars(&t)
}

/// Whether a write is owed: it is, unless the recorded fingerprint
/// already matches the canonical output.
pub open spec fn should_write_spec(out: Seq<char>, recorded: Option<Seq<char>>) -> bool {
    match recorded {
        Some(f) => f != fingerprint_spec(out),
        None => true,
    }
}

/// Compares the output's fingerprint with the recorded one.
pub fn should_write(out_text: &str, recorded: Option<&String>) -> (r: bool)
    ensures
        r == should_write_spec(
            out_text@,
            match recorded {
                Some(f) => Some(f@),
                None => None,
            },
        ),
{
    match recorded {
        Some(f) => {
            let fp = fingerprint(out_text);
            !fp.eq(f)
        },
        None => true,
    }
}

/// Two consecutive merges of the same inputs produce byte-identical
/// canonical output, so once the first run's fingerprint is recorded,
/// the second run owes no write.
pub proof fn lemma_merge_short_circuit(
    tpl: JsonSpec,
    dst: JsonSpec,
    ov: Seq<Seq<char>>,
    keep: Seq<Seq<char>>,
    nosync: Seq<Seq<char>>,
    arrs: Seq<(Seq<char>, Seq<char>)>,
)
    ensures
        !should_write_spec(
            canonical_text(merge_spec(tpl, dst, ov, keep, nosync, arrs)),
            Some(fingerprint_spec(canonical_text(merge_spec(tpl, dst, ov, keep, nosync, arrs)))),
        ),
{
}

} // verus!
