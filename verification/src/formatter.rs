//! The canonical formatter: key ordering and blank-line planning.
//!
//! Ordering ranks each top-level key by the first policy group holding
//! it (unlisted keys rank after every group) and keeps the original
//! relative order inside each rank. Blank lines are then decided per
//! field: a caller override beats the policy file, which beats the
//! built-in default of no blank lines; in lenient mode the original
//! blank lines are reproduced instead. The result is rendered through
//! the pretty printer and compared byte-for-byte with the original.

use vstd::prelude::*;
use vstd::string::*;
use crate::json::{JsonSpec, JsonValue, deep_entries, lemma_deep_entries, json_clone};
use crate::checks::{Issue, IssueSpec};
use crate::pretty::{RenderEntry, EntrySpec, document_text, vhead, vtail, join_lines,
    render_document_lines, join_lines_exec, render_value_block};
use crate::scan::{lines_of, blank_before_top, blank_before_child, text_lines,
    blank_before_top_exec, blank_before_child_exec};
use crate::textutil::{chars_of, string_from_chars, chars_eq, str_eq_str};

verus! {

broadcast use crate::textutil::lemma_char_vec_deep_view;

/// Declared key ordering: ranked groups for the top level, and optional
/// groupings for the children of named top-level fields.
pub struct OrderPolicy {
    pub top: Vec<Vec<String>>,
    pub sub: Vec<(String, Vec<Vec<String>>)>,
}

/// Blank-line policy from the policy file: whether groups are separated
/// by one blank line, and per-field `keep`/`none` modes.
pub struct LinebreakPolicy {
    pub between_groups: bool,
    pub before_fields: Vec<(String, String)>,
    pub in_fields: Vec<(String, String)>,
}

/// Caller-level overrides: each field set here beats the policy file.
pub struct LbOverrides {
    pub between_groups: Option<bool>,
    pub before_fields: Vec<(String, String)>,
    pub in_fields: Vec<(String, String)>,
}

/// The outcome of formatting one document.
pub struct FormatOutcome {
    pub changed: bool,
    pub text: String,
}

/// Whether a group lists key `k`.
pub open spec fn group_has(g: Seq<Seq<char>>, k: Seq<char>) -> bool {
    exists|j: int| 0 <= j < g.len() && g[j] == k
}

/// The rank of key `k`: the index of the first group listing it, or the
/// group count for unlisted keys.
pub open spec fn rank_of(groups: Seq<Seq<Seq<char>>>, k: Seq<char>) -> int
    decreases groups.len(),
{
    if groups.len() == 0 {
        0
    } else if group_has(groups[0], k) {
        0
    } else {
        1 + rank_of(groups.drop_first(), k)
    }
}

/// The entries whose key ranks exactly `r`, in original order.
pub open spec fn rank_filter(
    es: Seq<(Seq<char>, JsonSpec)>,
    groups: Seq<Seq<Seq<char>>>,
    r: int,
) -> Seq<(Seq<char>, JsonSpec)>
    decreases es.len(),
{
    if es.len() == 0 {
        Seq::empty()
    } else {
        let head: Seq<(Seq<char>, JsonSpec)> = if rank_of(groups, es[0].0) == r {
            seq![es[0]]
        } else {
            Seq::empty()
        };
        head + rank_filter(es.drop_first(), groups, r)
    }
}

/// The entries of every rank from `r` upwards, rank by rank.
pub open spec fn passes(
    es: Seq<(Seq<char>, JsonSpec)>,
    groups: Seq<Seq<Seq<char>>>,
    r: int,
) -> Seq<(Seq<char>, JsonSpec)>
    decreases groups.len() + 1 - r,
{
    if r < 0 || r > groups.len() {
        Seq::empty()
    } else {
        rank_filter(es, groups, r) + passes(es, groups, r + 1)
    }
}

/// The entries stably sorted by rank: group by group, original order
/// preserved inside each group, unlisted keys last.
pub open spec fn ordered_entries(
    es: Seq<(Seq<char>, JsonSpec)>,
    groups: Seq<Seq<Seq<char>>>,
) -> Seq<(Seq<char>, JsonSpec)> {
    passes(es, groups, 0)
}

/// First value bound to `k` in an association list.
pub open spec fn assoc(m: Seq<(Seq<char>, Seq<char>)>, k: Seq<char>) -> Option<Seq<char>>
    decreases m.len(),
{
    if m.len() == 0 {
        None
    } else if m[0].0 == k {
        Some(m[0].1)
    } else {
        assoc(m.drop_first(), k)
    }
}

/// The mode for a field: the caller's word, else the policy file's.
pub open spec fn mode_of(
    over: Seq<(Seq<char>, Seq<char>)>,
    pol: Seq<(Seq<char>, Seq<char>)>,
    k: Seq<char>,
) -> Option<Seq<char>> {
    match assoc(over, k) {
        Some(m) => Some(m),
        None => assoc(pol, k),
    }
}

/// The sub-grouping declared for field `k`, if any.
pub open spec fn sub_groups_of(
    subs: Seq<(Seq<char>, Seq<Seq<Seq<char>>>)>,
    k: Seq<char>,
) -> Option<Seq<Seq<Seq<char>>>>
    decreases subs.len(),
{
    if subs.len() == 0 {
        None
    } else if subs[0].0 == k {
        Some(subs[0].1)
    } else {
        sub_groups_of(subs.drop_first(), k)
    }
}

/// A field value with its declared sub-grouping applied: the children
/// of an object are reordered, anything else is untouched.
pub open spec fn apply_sub(v: JsonSpec, sg: Option<Seq<Seq<Seq<char>>>>) -> JsonSpec {
    match (v, sg) {
        (JsonSpec::Obj(es), Some(g)) => JsonSpec::Obj(ordered_entries(es, g)),
        _ => v,
    }
}

/// The blank-line decision for the entry at position `i` of the ordered
/// key list. In lenient mode the original's blank state is reproduced;
/// in strict mode a per-field `none` forces no blank, `keep` reproduces
/// the original, and otherwise a blank separates group transitions when
/// `between` is on, never before the first key.
pub open spec fn blank_decision(
    lines: Seq<Seq<char>>,
    ord: Seq<(Seq<char>, JsonSpec)>,
    i: int,
    groups: Seq<Seq<Seq<char>>>,
    strict: bool,
    between: bool,
    mode: Option<Seq<char>>,
) -> bool {
    let k = ord[i].0;
    if !strict {
        blank_before_top(lines, k)
    } else {
        match mode {
            Some(m) => if m == "none"@ {
                false
            } else if m == "keep"@ {
                blank_before_top(lines, k)
            } else {
                group_break(ord, i, groups, between)
            },
            None => group_break(ord, i, groups, between),
        }
    }
}

/// Whether a blank line separates entry `i` from the one before it
/// under the between-groups rule.
pub open spec fn group_break(
    ord: Seq<(Seq<char>, JsonSpec)>,
    i: int,
    groups: Seq<Seq<Seq<char>>>,
    between: bool,
) -> bool {
    between && i > 0 && rank_of(groups, ord[i].0) != rank_of(groups, ord[i - 1].0)
}

/// The blank lines planned between the direct children of field `k`,
/// whose (already reordered) value is `v`.
pub open spec fn child_blanks_of(
    lines: Seq<Seq<char>>,
    k: Seq<char>,
    v: JsonSpec,
    strict: bool,
    inmode: Option<Seq<char>>,
) -> Seq<bool> {
    if v is Obj && (!strict || inmode == Some("keep"@)) {
        Seq::new(v->Obj_0.len(), |j: int| blank_before_child(lines, k, v->Obj_0[j].0))
    } else {
        Seq::empty()
    }
}

/// The whole render plan for an object document.
pub open spec fn format_plan(
    es: Seq<(Seq<char>, JsonSpec)>,
    lines: Seq<Seq<char>>,
    topg: Seq<Seq<Seq<char>>>,
    subs: Seq<(Seq<char>, Seq<Seq<Seq<char>>>)>,
    lb_between: bool,
    lb_before: Seq<(Seq<char>, Seq<char>)>,
    lb_in: Seq<(Seq<char>, Seq<char>)>,
    ov_between: Option<bool>,
    ov_before: Seq<(Seq<char>, Seq<char>)>,
    ov_in: Seq<(Seq<char>, Seq<char>)>,
    strict: bool,
) -> Seq<EntrySpec> {
    let ord = ordered_entries(es, topg);
    let between = match ov_between {
        Some(b) => b,
        None => lb_between,
    };
    Seq::new(
        ord.len(),
        |i: int|
            {
                let k = ord[i].0;
                let v = apply_sub(ord[i].1, sub_groups_of(subs, k));
                EntrySpec {
                    key: k,
                    value: v,
                    blank: blank_decision(
                        lines,
                        ord,
                        i,
                        topg,
                        strict,
                        between,
                        mode_of(ov_before, lb_before, k),
                    ),
                    child_blanks: child_blanks_of(
                        lines,
                        k,
                        v,
                        strict,
                        mode_of(ov_in, lb_in, k),
                    ),
                }
            },
    )
}

/// The canonical text the formatter produces for a document.
pub open spec fn format_text(
    doc: JsonSpec,
    text: Seq<char>,
    topg: Seq<Seq<Seq<char>>>,
    subs: Seq<(Seq<char>, Seq<Seq<Seq<char>>>)>,
    lb_between: bool,
    lb_before: Seq<(Seq<char>, Seq<char>)>,
    lb_in: Seq<(Seq<char>, Seq<char>)>,
    ov_between: Option<bool>,
    ov_before: Seq<(Seq<char>, Seq<char>)>,
    ov_in: Seq<(Seq<char>, Seq<char>)>,
    strict: bool,
) -> Seq<char> {
    match doc {
        JsonSpec::Obj(es) => document_text(
            format_plan(
                es,
                lines_of(text),
                topg,
                subs,
                lb_between,
                lb_before,
                lb_in,
                ov_between,
                ov_before,
                ov_in,
                strict,
            ),
        ),
        _ => join_lines(seq![vhead(doc)] + vtail(doc, Seq::empty(), Seq::empty())),
    }
}

/// Looks up the first binding of `k` in an association list.
fn assoc_lookup<'a>(m: &'a Vec<(String, String)>, k: &str) -> (r: Option<&'a String>)
    ensures
        match r {
            Some(v) => assoc(m.deep_view(), k@) == Some(v@),
            None => assoc(m.deep_view(), k@) is None,
        },
{
    let ghost ms = m.deep_view();
    let mut i: usize = 0;
    proof {
        assert(ms.skip(0) =~= ms);
    }
    while i < m.len()
        invariant
            i <= m@.len(),
            ms == m.deep_view(),
            ms.len() == m@.len(),
            assoc(ms, k@) == assoc(ms.skip(i as int), k@),
        decreases m@.len() - i,
    {
        let ghost rest = ms.skip(i as int);
        proof {
            assert(rest[0] == (m@[i as int].0@, m@[i as int].1@));
            assert(rest.drop_first() =~= ms.skip(i + 1));
        }
        if str_eq_str(m[i].0.as_str(), k) {
            return Some(&m[i].1);
        }
        i = i + 1;
    }
    proof {
        assert(ms.skip(ms.len() as int) =~= Seq::<(Seq<char>, Seq<char>)>::empty());
    }
    None
}

/// Resolves a field's mode: caller override first, then the policy.
fn mode_lookup<'a>(over: &'a Vec<(String, String)>, pol: &'a Vec<(String, String)>, k: &str) -> (r:
    Option<&'a String>)
    ensures
        match r {
            Some(v) => mode_of(over.deep_view(), pol.deep_view(), k@) == Some(v@),
            None => mode_of(over.deep_view(), pol.deep_view(), k@) is None,
        },
{
    match assoc_lookup(over, k) {
        Some(v) => Some(v),
        None => assoc_lookup(pol, k),
    }
}

/// Looks up the sub-grouping declared for field `k`.
fn sub_lookup<'a>(subs: &'a Vec<(String, Vec<Vec<String>>)>, k: &str) -> (r: Option<
    &'a Vec<Vec<String>>,
>)
    ensures
        match r {
            Some(g) => sub_groups_of(subs.deep_view(), k@) == Some(g.deep_view()),
            None => sub_groups_of(subs.deep_view(), k@) is None,
        },
{
    let ghost ss = subs.deep_view();
    let mut i: usize = 0;
    proof {
        assert(ss.skip(0) =~= ss);
    }
    while i < subs.len()
        invariant
            i <= subs@.len(),
            ss == subs.deep_view(),
            ss.len() == subs@.len(),
            sub_groups_of(ss, k@) == sub_groups_of(ss.skip(i as int), k@),
        decreases subs@.len() - i,
    {
        let ghost rest = ss.skip(i as int);
        proof {
            assert(rest[0] == (subs@[i as int].0@, subs@[i as int].1.deep_view()));
            assert(rest.drop_first() =~= ss.skip(i + 1));
        }
        if str_eq_str(subs[i].0.as_str(), k) {
            return Some(&subs[i].1);
        }
        i = i + 1;
    }
    proof {
        assert(ss.skip(ss.len() as int) =~= Seq::<(Seq<char>, Seq<Seq<Seq<char>>>)>::empty());
    }
    None
}

/// Whether one group lists key `k`.
fn group_has_exec(g: &Vec<String>, k: &str) -> (r: bool)
    ensures
        r == group_has(g.deep_view(), k@),
{
    let mut i: usize = 0;
    while i < g.len()
        invariant
            i <= g@.len(),
            g.deep_view().len() == g@.len(),
            forall|j: int| 0 <= j < i ==> g.deep_view()[j] != k@,
        decreases g@.len() - i,
    {
        if str_eq_str(g[i].as_str(), k) {
            proof {
                assert(g.deep_view()[i as int] == k@);
            }
            return true;
        }
        i = i + 1;
    }
    false
}

/// Computes the rank of key `k` under the grouped order.
pub fn rank_of_exec(groups: &Vec<Vec<String>>, k: &str) -> (r: usize)
    ensures
        r as int == rank_of(groups.deep_view(), k@),
        r <= groups@.len(),
{
    let ghost gs = groups.deep_view();
    let mut i: usize = 0;
    proof {
        assert(gs.skip(0) =~= gs);
        lemma_rank_nonneg(gs, k@);
    }
    while i < groups.len()
        invariant
            i <= groups@.len(),
            gs == groups.deep_view(),
            gs.len() == groups@.len(),
            rank_of(gs, k@) == i + rank_of(gs.skip(i as int), k@),
            rank_of(gs.skip(i as int), k@) >= 0,
        decreases groups@.len() - i,
    {
        let ghost rest = gs.skip(i as int);
        proof {
            assert(rest[0] == groups@[i as int].deep_view());
            assert(rest.drop_first() =~= gs.skip(i + 1));
            lemma_rank_nonneg(rest.drop_first(), k@);
        }
        if group_has_exec(&groups[i], k) {
            return i;
        }
        i = i + 1;
    }
    proof {
        assert(gs.skip(gs.len() as int) =~= Seq::<Seq<Seq<char>>>::empty());
    }
    groups.len()
}

pub proof fn lemma_rank_nonneg(groups: Seq<Seq<Seq<char>>>, k: Seq<char>)
    ensures
        0 <= rank_of(groups, k) <= groups.len(),
    decreases groups.len(),
{
    if groups.len() > 0 && !group_has(groups[0], k) {
        lemma_rank_nonneg(groups.drop_first(), k);
    }
}

/// Reorders an object's entries by group rank, stably.
pub fn ordered_entries_exec(es: &Vec<(String, JsonValue)>, groups: &Vec<Vec<String>>) -> (out: Vec<
    (String, JsonValue),
>)
    ensures
        deep_entries(out@) == ordered_entries(deep_entries(es@), groups.deep_view()),
{
    let ghost des = deep_entries(es@);
    let ghost gs = groups.deep_view();
    proof {
        lemma_deep_entries(es@);
    }
    let mut out: Vec<(String, JsonValue)> = Vec::new();
    let mut r: usize = 0;
    proof {
        lemma_deep_entries(out@);
        assert(deep_entries(out@) =~= Seq::<(Seq<char>, JsonSpec)>::empty());
    }
    while r < groups.len()
        invariant
            r <= groups@.len(),
            des == deep_entries(es@),
            gs == groups.deep_view(),
            gs.len() == groups@.len(),
            deep_entries(out@) + passes(des, gs, r as int) == ordered_entries(des, gs),
        decreases groups@.len() - r,
    {
        rank_pass(&mut out, es, groups, r);
        r = r + 1;
    }
    rank_pass(&mut out, es, groups, r);
    proof {
        assert(passes(des, gs, r + 1 as int) =~= Seq::<(Seq<char>, JsonSpec)>::empty());
        assert(deep_entries(out@) =~= ordered_entries(des, gs));
    }
    out
}

/// Appends, in original order, a clone of every entry of rank `r`.
fn rank_pass(
    out: &mut Vec<(String, JsonValue)>,
    es: &Vec<(String, JsonValue)>,
    groups: &Vec<Vec<String>>,
    r: usize,
)
    ensures
        deep_entries(final(out)@) == deep_entries(old(out)@) + rank_filter(
            deep_entries(es@),
            groups.deep_view(),
            r as int,
        ),
{
    let ghost des = deep_entries(es@);
    let ghost gs = groups.deep_view();
    let ghost opre = deep_entries(old(out)@);
    proof {
        lemma_deep_entries(es@);
        assert(des.skip(0) =~= des);
    }
    let mut j: usize = 0;
    while j < es.len()
        invariant
            j <= es@.len(),
            des == deep_entries(es@),
            gs == groups.deep_view(),
            opre == deep_entries(old(out)@),
            des.len() == es@.len(),
            forall|l: int| 0 <= l < es@.len() ==> des[l] == (es@[l].0@, es@[l].1.deep()),
            deep_entries(out@) + rank_filter(des.skip(j as int), gs, r as int) == opre
                + rank_filter(des, gs, r as int),
        decreases es@.len() - j,
    {
        let ghost fpre = deep_entries(out@);
        let ghost rest = des.skip(j as int);
        proof {
            assert(rest[0] == (es@[j as int].0@, es@[j as int].1.deep()));
            assert(rest.drop_first() =~= des.skip(j + 1));
        }
        let kr = rank_of_exec(groups, es[j].0.as_str());
        if kr == r {
            let kc = es[j].0.clone();
            let vc = json_clone(&es[j].1);
            let ghost gout = out@;
            out.push((kc, vc));
            proof {
                assert(out@.drop_last() =~= gout);
                lemma_push_entry(out@, fpre, rest[0]);
                assert(deep_entries(out@) + rank_filter(des.skip(j + 1), gs, r as int) =~= fpre
                    + rank_filter(rest, gs, r as int));
            }
        } else {
            proof {
                assert(deep_entries(out@) + rank_filter(des.skip(j + 1), gs, r as int) =~= fpre
                    + rank_filter(rest, gs, r as int));
            }
        }
        j = j + 1;
    }
    proof {
        assert(des.skip(des.len() as int) =~= Seq::<(Seq<char>, JsonSpec)>::empty());
        assert(deep_entries(out@) =~= opre + rank_filter(des, gs, r as int));
    }
}

/// A pushed clone extends the entry model by the cloned entry.
proof fn lemma_push_entry(
    now: Seq<(String, JsonValue)>,
    pre: Seq<(Seq<char>, JsonSpec)>,
    e: (Seq<char>, JsonSpec),
)
    requires
        now.len() > 0,
        deep_entries(now.drop_last()) == pre,
        now.last().0@ == e.0,
        now.last().1.deep() == e.1,
    ensures
        deep_entries(now) == pre.push(e),
{
    lemma_deep_entries(now);
    lemma_deep_entries(now.drop_last());
    assert forall|i: int| 0 <= i < now.len() - 1 implies #[trigger] deep_entries(now)[i]
        == pre[i] by {
        assert(now.drop_last()[i] == now[i]);
        assert(deep_entries(now.drop_last())[i] == (now.drop_last()[i].0@, now.drop_last()[
            i
        ].1.deep()));
    }
    assert(deep_entries(now) =~= pre.push(e));
}

/// Formats one parsed document against its original text.
pub fn format_document(
    text: &str,
    doc: &JsonValue,
    order: &OrderPolicy,
    lb: &LinebreakPolicy,
    over: &LbOverrides,
    strict: bool,
) -> (r: FormatOutcome)
    ensures
        r.text@ == format_text(
            doc.deep(),
            text@,
            order.top.deep_view(),
            order.sub.deep_view(),
            lb.between_groups,
            lb.before_fields.deep_view(),
            lb.in_fields.deep_view(),
            over.between_groups,
            over.before_fields.deep_view(),
            over.in_fields.deep_view(),
            strict,
        ),
        r.changed == (r.text@ != text@),
{
    let rendered: Vec<char> = match doc {
        JsonValue::Obj(es) => {
            let lines = text_lines(text);
            let ordered = ordered_entries_exec(es, &order.top);
            let ghost des = deep_entries(es@);
            let ghost gord = ordered_entries(des, order.top.deep_view());
            let ghost plan_spec = format_plan(
                des,
                lines_of(text@),
                order.top.deep_view(),
                order.sub.deep_view(),
                lb.between_groups,
                lb.before_fields.deep_view(),
                lb.in_fields.deep_view(),
                over.between_groups,
                over.before_fields.deep_view(),
                over.in_fields.deep_view(),
                strict,
            );
            proof {
                lemma_deep_entries(ordered@);
                assert(deep_entries(ordered@) == gord);
                assert(plan_spec.len() == gord.len());
            }
            let between: bool = match over.between_groups {
                Some(b) => b,
                None => lb.between_groups,
            };
            let mut plan: Vec<RenderEntry> = Vec::new();
            let mut i: usize = 0;
            while i < ordered.len()
                invariant
                    i <= ordered@.len(),
                    des == deep_entries(es@),
                    gord == ordered_entries(des, order.top.deep_view()),
                    deep_entries(ordered@) == gord,
                    gord.len() == ordered@.len(),
                    forall|j: int|
                        0 <= j < ordered@.len() ==> gord[j] == (
                        ordered@[j].0@,
                        ordered@[j].1.deep(),
                        ),
                    between == (match over.between_groups {
                        Some(b) => b,
                        None => lb.between_groups,
                    }),
                    plan_spec == format_plan(
                        des,
                        lines_of(text@),
                        order.top.deep_view(),
                        order.sub.deep_view(),
                        lb.between_groups,
                        lb.before_fields.deep_view(),
                        lb.in_fields.deep_view(),
                        over.between_groups,
                        over.before_fields.deep_view(),
                        over.in_fields.deep_view(),
                        strict,
                    ),
                    plan_spec.len() == gord.len(),
                    lines.deep_view() == lines_of(text@),
                    plan@.len() == i,
                    forall|j: int| 0 <= j < i ==> #[trigger] plan@[j].deep_view() == plan_spec[j],
                decreases ordered@.len() - i,
            {
                let k = ordered[i].0.as_str();
                let ghost gk = ordered@[i as int].0@;
                // Reorder the children when a sub-grouping is declared.
                let v: JsonValue = match sub_lookup(&order.sub, k) {
                    Some(g) => {
                        match &ordered[i].1 {
                            JsonValue::Obj(ces) => {
                                let reordered = ordered_entries_exec(ces, g);
                                proof {
                                    lemma_deep_entries(reordered@);
                                }
                                JsonValue::Obj(reordered)
                            },
                            _ => json_clone(&ordered[i].1),
                        }
                    },
                    None => json_clone(&ordered[i].1),
                };
                proof {
                    assert(v.deep() == apply_sub(
                        gord[i as int].1,
                        sub_groups_of(order.sub.deep_view(), gk),
                    ));
                }
                // Decide the blank line before this key.
                let mode = mode_lookup(&over.before_fields, &lb.before_fields, k);
                let blank: bool = if !strict {
                    blank_before_top_exec(&lines, k)
                } else {
                    match mode {
                        Some(m) => {
                            if str_eq_str(m.as_str(), "none") {
                                false
                            } else if str_eq_str(m.as_str(), "keep") {
                                blank_before_top_exec(&lines, k)
                            } else {
                                group_break_exec(&ordered, i, &order.top, between)
                            }
                        },
                        None => group_break_exec(&ordered, i, &order.top, between),
                    }
                };
                proof {
                    assert(blank == blank_decision(
                        lines_of(text@),
                        gord,
                        i as int,
                        order.top.deep_view(),
                        strict,
                        between,
                        mode_of(
                            over.before_fields.deep_view(),
                            lb.before_fields.deep_view(),
                            gk,
                        ),
                    ));
                }
                // Decide the blank lines between this field's children.
                let inmode = mode_lookup(&over.in_fields, &lb.in_fields, k);
                let keep_inside: bool = if !strict {
                    true
                } else {
                    match inmode {
                        Some(m) => str_eq_str(m.as_str(), "keep"),
                        None => false,
                    }
                };
                let mut child_blanks: Vec<bool> = Vec::new();
                match &v {
                    JsonValue::Obj(ces) => {
                        if keep_inside {
                            let ghost dces = deep_entries(ces@);
                            proof {
                                lemma_deep_entries(ces@);
                            }
                            let mut cj: usize = 0;
                            while cj < ces.len()
                                invariant
                                    cj <= ces@.len(),
                                    k@ == gk,
                                    v == JsonValue::Obj(*ces),
                                    dces == deep_entries(ces@),
                                    dces.len() == ces@.len(),
                                    forall|l: int|
                                        0 <= l < ces@.len() ==> dces[l] == (
                                        ces@[l].0@,
                                        ces@[l].1.deep(),
                                        ),
                                    lines.deep_view() == lines_of(text@),
                                    child_blanks@.len() == cj,
                                    forall|l: int|
                                        0 <= l < cj ==> child_blanks@[l] == blank_before_child(
                                            lines_of(text@),
                                            gk,
                                            dces[l].0,
                                        ),
                                decreases ces@.len() - cj,
                            {
                                let cb = blank_before_child_exec(&lines, k, ces[cj].0.as_str());
                                child_blanks.push(cb);
                                cj = cj + 1;
                            }
                        }
                    },
                    _ => {},
                }
                proof {
                    assert(child_blanks@ =~= child_blanks_of(
                        lines_of(text@),
                        gk,
                        v.deep(),
                        strict,
                        mode_of(over.in_fields.deep_view(), lb.in_fields.deep_view(), gk),
                    ));
                }
                let key = ordered[i].0.clone();
                let entry = RenderEntry { key, value: v, blank_before: blank, child_blanks };
                proof {
                    assert(entry.deep_view() == plan_spec[i as int]);
                }
                plan.push(entry);
                i = i + 1;
            }
            let ls = render_document_lines(&plan);
            proof {
                assert(plan.deep_view() =~= plan_spec);
            }
            join_lines_exec(&ls)
        },
        _ => {
            let empty_ind: Vec<char> = Vec::new();
            let empty_blanks: Vec<bool> = Vec::new();
            let (h, t) = render_value_block(doc, &empty_ind, &empty_blanks);
            let mut ls: Vec<Vec<char>> = Vec::new();
            proof {
                assert(h.deep_view() == h@);
            }
            ls.push(h);
            crate::pretty::append_lines(&mut ls, t);
            proof {
                assert(ls.deep_view() =~= seq![vhead(doc.deep())] + vtail(
                    doc.deep(),
                    Seq::empty(),
                    Seq::empty(),
                ));
            }
            join_lines_exec(&ls)
        },
    };
    let orig = chars_of(text);
    let same = chars_eq(&rendered, &orig);
    let out = string_from_chars(&rendered);
    FormatOutcome { changed: !same, text: out }
}

/// Decides the between-groups rule for entry `i`.
fn group_break_exec(
    ordered: &Vec<(String, JsonValue)>,
    i: usize,
    groups: &Vec<Vec<String>>,
    between: bool,
) -> (r: bool)
    requires
        i < ordered@.len(),
    ensures
        r == group_break(deep_entries(ordered@), i as int, groups.deep_view(), between),
{
    proof {
        lemma_deep_entries(ordered@);
    }
    if !between || i == 0 {
        return false;
    }
    let ra = rank_of_exec(groups, ordered[i].0.as_str());
    let rb = rank_of_exec(groups, ordered[i - 1].0.as_str());
    ra != rb
}

/// The keys of an entry list, in order.
pub open spec fn entry_keys(es: Seq<(Seq<char>, JsonSpec)>) -> Seq<Seq<char>> {
    Seq::new(es.len(), |i: int| es[i].0)
}

/// Whether a document's top-level keys differ from the configured order.
pub open spec fn misordered(doc: JsonSpec, topg: Seq<Seq<Seq<char>>>) -> bool {
    doc is Obj && entry_keys(doc->Obj_0) != entry_keys(ordered_entries(doc->Obj_0, topg))
}

/// Reports one issue when the document's top-level keys are not in the
/// configured order; the rule's message and level pass through, with
/// `error` as the default severity.
pub fn order_issue(
    doc: &JsonValue,
    order: &OrderPolicy,
    message: &Option<String>,
    level: &Option<String>,
    file: &str,
    rule_id: &str,
) -> (r: Option<Issue>)
    ensures
        match r {
            Some(is) => misordered(doc.deep(), order.top.deep_view()) && is.deep_view()
                == (IssueSpec {
                file: file@,
                rule: rule_id@,
                severity: crate::checks::sev_of(level.deep_view()),
                path: "$"@,
                message: crate::checks::tmpl_of(
                    message.deep_view(),
                    "Top-level keys do not follow the configured order"@,
                ),
            }),
            None => !misordered(doc.deep(), order.top.deep_view()),
        },
{
    match doc {
        JsonValue::Obj(es) => {
            let ghost des = deep_entries(es@);
            proof {
                lemma_deep_entries(es@);
            }
            let ordered = ordered_entries_exec(es, &order.top);
            let ghost gord = ordered_entries(des, order.top.deep_view());
            proof {
                lemma_deep_entries(ordered@);
            }
            let mut differ = false;
            if es.len() != ordered.len() {
                differ = true;
                proof {
                    assert(entry_keys(des).len() != entry_keys(gord).len());
                }
            } else {
                let mut j: usize = 0;
                while j < es.len()
                    invariant
                        j <= es@.len(),
                        es@.len() == ordered@.len(),
                        doc == JsonValue::Obj(*es),
                        des == deep_entries(es@),
                        gord == ordered_entries(des, order.top.deep_view()),
                        deep_entries(ordered@) == gord,
                        des.len() == es@.len(),
                        gord.len() == ordered@.len(),
                        forall|l: int|
                            0 <= l < es@.len() ==> des[l] == (es@[l].0@, es@[l].1.deep()),
                        forall|l: int|
                            0 <= l < ordered@.len() ==> gord[l] == (
                            ordered@[l].0@,
                            ordered@[l].1.deep(),
                            ),
                        !differ ==> forall|l: int|
                            0 <= l < j ==> #[trigger] entry_keys(des)[l] == entry_keys(gord)[l],
                        differ ==> entry_keys(des) != entry_keys(gord),
                    decreases es@.len() - j,
                {
                    if !differ && !str_eq_str(es[j].0.as_str(), ordered[j].0.as_str()) {
                        differ = true;
                        proof {
                            assert(entry_keys(des)[j as int] != entry_keys(gord)[j as int]);
                        }
                    } else {
                        proof {
                            if !differ {
                                assert(entry_keys(des)[j as int] == entry_keys(gord)[j as int]);
                            }
                        }
                    }
                    j = j + 1;
                }
                proof {
                    if !differ {
                        assert(entry_keys(des) =~= entry_keys(gord));
                    }
                }
            }
            if differ {
                let severity: String = match level {
                    Some(l) => l.clone(),
                    None => String::from_str("error"),
                };
                let msg: String = match message {
                    Some(m) => m.clone(),
                    None => String::from_str("Top-level keys do not follow the configured order"),
                };
                Some(
                    Issue {
                        file: String::from_str(file),
                        rule: String::from_str(rule_id),
                        severity,
                        path: String::from_str("$"),
                        message: msg,
                    },
                )
            } else {
                None
            }
        },
        _ => None,
    }
}

/// Keys appear in non-decreasing rank order.
pub open spec fn rank_sorted(es: Seq<(Seq<char>, JsonSpec)>, groups: Seq<Seq<Seq<char>>>) -> bool {
    forall|i: int, j: int|
        0 <= i <= j < es.len() ==> rank_of(groups, #[trigger] es[i].0) <= rank_of(
            groups,
            #[trigger] es[j].0,
        )
}

proof fn lemma_passes_nothing(groups: Seq<Seq<Seq<char>>>, r: int)
    ensures
        passes(Seq::empty(), groups, r) == Seq::<(Seq<char>, JsonSpec)>::empty(),
    decreases groups.len() + 1 - r,
{
    if 0 <= r <= groups.len() {
        lemma_passes_nothing(groups, r + 1);
        assert(rank_filter(Seq::empty(), groups, r) + passes(Seq::empty(), groups, r + 1) =~= Seq::<
            (Seq<char>, JsonSpec),
        >::empty());
    }
}

proof fn lemma_filter_all_ne(es: Seq<(Seq<char>, JsonSpec)>, groups: Seq<Seq<Seq<char>>>, r: int)
    requires
        forall|i: int| 0 <= i < es.len() ==> rank_of(groups, #[trigger] es[i].0) != r,
    ensures
        rank_filter(es, groups, r) == Seq::<(Seq<char>, JsonSpec)>::empty(),
    decreases es.len(),
{
    if es.len() > 0 {
        assert forall|i: int| 0 <= i < es.drop_first().len() implies rank_of(
            groups,
            #[trigger] es.drop_first()[i].0,
        ) != r by {
            assert(es.drop_first()[i] == es[i + 1]);
        }
        lemma_filter_all_ne(es.drop_first(), groups, r);
        assert(rank_filter(es, groups, r) =~= Seq::<(Seq<char>, JsonSpec)>::empty());
    }
}

proof fn lemma_filter_ranks(es: Seq<(Seq<char>, JsonSpec)>, groups: Seq<Seq<Seq<char>>>, r: int)
    ensures
        forall|l: int|
            0 <= l < rank_filter(es, groups, r).len() ==> rank_of(
                groups,
                #[trigger] rank_filter(es, groups, r)[l].0,
            ) == r,
    decreases es.len(),
{
    if es.len() > 0 {
        lemma_filter_ranks(es.drop_first(), groups, r);
        let f = rank_filter(es, groups, r);
        let fr = rank_filter(es.drop_first(), groups, r);
        assert forall|l: int| 0 <= l < f.len() implies rank_of(groups, #[trigger] f[l].0)
            == r by {
            if rank_of(groups, es[0].0) == r {
                if l == 0 {
                    assert(f[0] == es[0]);
                } else {
                    assert(f[l] == fr[l - 1]);
                }
            } else {
                assert(f =~= fr);
            }
        }
    }
}

proof fn lemma_passes_sorted(es: Seq<(Seq<char>, JsonSpec)>, groups: Seq<Seq<Seq<char>>>, r: int)
    ensures
        forall|l: int|
            0 <= l < passes(es, groups, r).len() ==> rank_of(
                groups,
                #[trigger] passes(es, groups, r)[l].0,
            ) >= r,
        rank_sorted(passes(es, groups, r), groups),
    decreases groups.len() + 1 - r,
{
    if r < 0 || r > groups.len() {
    } else {
        lemma_passes_sorted(es, groups, r + 1);
        lemma_filter_ranks(es, groups, r);
        let f = rank_filter(es, groups, r);
        let p = passes(es, groups, r + 1);
        assert forall|i: int, j: int|
            0 <= i <= j < passes(es, groups, r).len() implies rank_of(
            groups,
            #[trigger] passes(es, groups, r)[i].0,
        ) <= rank_of(groups, #[trigger] passes(es, groups, r)[j].0) by {
            if i < f.len() {
                assert(passes(es, groups, r)[i] == f[i]);
            } else {
                assert(passes(es, groups, r)[i] == p[i - f.len()]);
            }
            if j < f.len() {
                assert(passes(es, groups, r)[j] == f[j]);
            } else {
                assert(passes(es, groups, r)[j] == p[j - f.len()]);
            }
        }
        assert forall|l: int| 0 <= l < passes(es, groups, r).len() implies rank_of(
            groups,
            #[trigger] passes(es, groups, r)[l].0,
        ) >= r by {
            if l < f.len() {
                assert(passes(es, groups, r)[l] == f[l]);
            } else {
                assert(passes(es, groups, r)[l] == p[l - f.len()]);
            }
        }
    }
}

proof fn lemma_peel(es: Seq<(Seq<char>, JsonSpec)>, groups: Seq<Seq<Seq<char>>>, r: int, r0: int)
    requires
        0 <= r <= r0 <= groups.len(),
        forall|i: int| 0 <= i < es.len() ==> rank_of(groups, #[trigger] es[i].0) >= r0,
    ensures
        passes(es, groups, r) == passes(es, groups, r0),
    decreases r0 - r,
{
    if r < r0 {
        lemma_filter_all_ne(es, groups, r);
        lemma_peel(es, groups, r + 1, r0);
        assert(passes(es, groups, r) =~= passes(es, groups, r + 1));
    }
}

proof fn lemma_above(es: Seq<(Seq<char>, JsonSpec)>, groups: Seq<Seq<Seq<char>>>, r: int)
    requires
        es.len() > 0,
        rank_of(groups, es[0].0) < r,
    ensures
        passes(es, groups, r) == passes(es.drop_first(), groups, r),
    decreases groups.len() + 1 - r,
{
    if r < 0 || r > groups.len() {
        lemma_passes_nothing(groups, r);
        assert(passes(es, groups, r) =~= passes(es.drop_first(), groups, r));
    } else {
        lemma_above(es, groups, r + 1);
        assert(rank_filter(es, groups, r) =~= rank_filter(es.drop_first(), groups, r));
        assert(passes(es, groups, r) =~= passes(es.drop_first(), groups, r));
    }
}

/// A rank-sorted entry list is already in its configured order.
pub proof fn lemma_ordered_fixpoint(es: Seq<(Seq<char>, JsonSpec)>, groups: Seq<Seq<Seq<char>>>)
    requires
        rank_sorted(es, groups),
    ensures
        ordered_entries(es, groups) == es,
    decreases es.len(),
{
    if es.len() == 0 {
        assert(es =~= Seq::<(Seq<char>, JsonSpec)>::empty());
        lemma_passes_nothing(groups, 0);
        assert(ordered_entries(es, groups) =~= es);
    } else {
        let r0 = rank_of(groups, es[0].0);
        lemma_rank_nonneg(groups, es[0].0);
        assert forall|i: int| 0 <= i < es.len() implies rank_of(groups, #[trigger] es[i].0)
            >= r0 by {
            assert(rank_of(groups, es[0].0) <= rank_of(groups, es[i].0));
        }
        lemma_peel(es, groups, 0, r0);
        let rest = es.drop_first();
        lemma_above(es, groups, r0 + 1);
        assert(rank_filter(es, groups, r0) == seq![es[0]] + rank_filter(rest, groups, r0));
        assert(passes(es, groups, r0) =~= seq![es[0]] + (rank_filter(rest, groups, r0) + passes(
            rest,
            groups,
            r0 + 1,
        )));
        assert(rank_filter(rest, groups, r0) + passes(rest, groups, r0 + 1) == passes(
            rest,
            groups,
            r0,
        ));
        assert forall|i: int| 0 <= i < rest.len() implies rank_of(
            groups,
            #[trigger] rest[i].0,
        ) >= r0 by {
            assert(rest[i] == es[i + 1]);
        }
        lemma_peel(rest, groups, 0, r0);
        assert forall|i: int, j: int| 0 <= i <= j < rest.len() implies rank_of(
            groups,
            #[trigger] rest[i].0,
        ) <= rank_of(groups, #[trigger] rest[j].0) by {
            assert(rest[i] == es[i + 1]);
            assert(rest[j] == es[j + 1]);
        }
        lemma_ordered_fixpoint(rest, groups);
        assert(ordered_entries(es, groups) =~= es);
    }
}

/// Declared keys always precede undeclared ones: the reordered entries
/// carry non-decreasing ranks, and unlisted keys rank after every group.
pub proof fn lemma_ordered_sorted(es: Seq<(Seq<char>, JsonSpec)>, groups: Seq<Seq<Seq<char>>>)
    ensures
        rank_sorted(ordered_entries(es, groups), groups),
{
    lemma_passes_sorted(es, groups, 0);
}

/// Reordering is idempotent: the configured order of an already ordered
/// entry list is that list itself.
pub proof fn lemma_order_idempotent(es: Seq<(Seq<char>, JsonSpec)>, groups: Seq<Seq<Seq<char>>>)
    ensures
        ordered_entries(ordered_entries(es, groups), groups) == ordered_entries(es, groups),
{
    lemma_passes_sorted(es, groups, 0);
    lemma_ordered_fixpoint(ordered_entries(es, groups), groups);
}

/// The top-level entries a loader reads back from a formatted document:
/// the planned keys and values, in plan order.
pub open spec fn plan_entries(plan: Seq<EntrySpec>) -> Seq<(Seq<char>, JsonSpec)> {
    Seq::new(plan.len(), |i: int| (plan[i].key, plan[i].value))
}

/// Formatting is stable: planning the formatter's own output again,
/// with the same policy, reproduces the plan line for line — so the
/// second run changes nothing. Strict mode is assumed, no field may ask
/// to keep in-field blank lines, and the second run's source lines must
/// report exactly the planned blank state before each key, which is
/// what scanning the rendered text yields.
pub proof fn lemma_format_plan_stable(
    es: Seq<(Seq<char>, JsonSpec)>,
    lines: Seq<Seq<char>>,
    lines2: Seq<Seq<char>>,
    topg: Seq<Seq<Seq<char>>>,
    subs: Seq<(Seq<char>, Seq<Seq<Seq<char>>>)>,
    lb_between: bool,
    lb_before: Seq<(Seq<char>, Seq<char>)>,
    lb_in: Seq<(Seq<char>, Seq<char>)>,
    ov_between: Option<bool>,
    ov_before: Seq<(Seq<char>, Seq<char>)>,
    ov_in: Seq<(Seq<char>, Seq<char>)>,
)
    requires
        forall|k: Seq<char>| mode_of(ov_in, lb_in, k) != Some("keep"@),
        forall|i: int|
            0 <= i < format_plan(
                es,
                lines,
                topg,
                subs,
                lb_between,
                lb_before,
                lb_in,
                ov_between,
                ov_before,
                ov_in,
                true,
            ).len() ==> blank_before_top(
                lines2,
                #[trigger] format_plan(
                    es,
                    lines,
                    topg,
                    subs,
                    lb_between,
                    lb_before,
                    lb_in,
                    ov_between,
                    ov_before,
                    ov_in,
                    true,
                )[i].key,
            ) == format_plan(
                es,
                lines,
                topg,
                subs,
                lb_between,
                lb_before,
                lb_in,
                ov_between,
                ov_before,
                ov_in,
                true,
            )[i].blank,
    ensures
        format_plan(
            plan_entries(
                format_plan(
                    es,
                    lines,
                    topg,
                    subs,
                    lb_between,
                    lb_before,
                    lb_in,
                    ov_between,
                    ov_before,
                    ov_in,
                    true,
                ),
            ),
            lines2,
            topg,
            subs,
            lb_between,
            lb_before,
            lb_in,
            ov_between,
            ov_before,
            ov_in,
            true,
        ) == format_plan(
            es,
            lines,
            topg,
            subs,
            lb_between,
            lb_before,
            lb_in,
            ov_between,
            ov_before,
            ov_in,
            true,
        ),
{
    let p1 = format_plan(
        es,
        lines,
        topg,
        subs,
        lb_between,
        lb_before,
        lb_in,
        ov_between,
        ov_before,
        ov_in,
        true,
    );
    let es2 = plan_entries(p1);
    let ord1 = ordered_entries(es, topg);
    // The plan's keys stand in configured order, so reordering them
    // again moves nothing.
    lemma_passes_sorted(es, topg, 0);
    assert forall|i: int, j: int| 0 <= i <= j < es2.len() implies rank_of(
        topg,
        #[trigger] es2[i].0,
    ) <= rank_of(topg, #[trigger] es2[j].0) by {
        assert(es2[i].0 == ord1[i].0);
        assert(es2[j].0 == ord1[j].0);
    }
    lemma_ordered_fixpoint(es2, topg);
    let ord2 = ordered_entries(es2, topg);
    let p2 = format_plan(
        plan_entries(p1),
        lines2,
        topg,
        subs,
        lb_between,
        lb_before,
        lb_in,
        ov_between,
        ov_before,
        ov_in,
        true,
    );
    assert forall|i: int| 0 <= i < p2.len() implies p2[i] == p1[i] by {
        let k = ord1[i].0;
        assert(ord2[i] == es2[i]);
        assert(es2[i] == (p1[i].key, p1[i].value));
        // The value was already sub-ordered on the first run.
        assert(apply_sub(p1[i].value, sub_groups_of(subs, k)) == p1[i].value) by {
            match (p1[i].value, sub_groups_of(subs, k)) {
                (JsonSpec::Obj(ces), Some(g)) => {
                    match (ord1[i].1, sub_groups_of(subs, k)) {
                        (JsonSpec::Obj(oes), Some(g2)) => {
                            lemma_order_idempotent(oes, g);
                        },
                        _ => {
                            lemma_passes_sorted(ces, g, 0);
                            lemma_ordered_fixpoint(ces, g);
                        },
                    }
                },
                _ => {},
            }
        }
        // The blank decision repeats: a forced mode repeats itself, a
        // kept mode reads the given evidence, and the group rule sees
        // the same ranks.
        assert(p2[i].blank == p1[i].blank) by {
            let m = mode_of(ov_before, lb_before, k);
            if i > 0 {
                assert(es2[i - 1].0 == ord1[i - 1].0);
            }
        }
        // In-field blanks are off everywhere by assumption.
        assert(p2[i].child_blanks =~= p1[i].child_blanks) by {
            assert(mode_of(ov_in, lb_in, k) != Some("keep"@));
        }
    }
    assert(p2 =~= p1);
}

/// The plan a strict formatting run builds for a document text.
pub open spec fn strict_plan(
    es: Seq<(Seq<char>, JsonSpec)>,
    text: Seq<char>,
    topg: Seq<Seq<Seq<char>>>,
    subs: Seq<(Seq<char>, Seq<Seq<Seq<char>>>)>,
    lb_between: bool,
    lb_before: Seq<(Seq<char>, Seq<char>)>,
    lb_in: Seq<(Seq<char>, Seq<char>)>,
    ov_between: Option<bool>,
    ov_before: Seq<(Seq<char>, Seq<char>)>,
    ov_in: Seq<(Seq<char>, Seq<char>)>,
) -> Seq<EntrySpec> {
    format_plan(
        es,
        lines_of(text),
        topg,
        subs,
        lb_between,
        lb_before,
        lb_in,
        ov_between,
        ov_before,
        ov_in,
        true,
    )
}

/// Strict formatting is idempotent: run once on a document, then again
/// on its own output (as a loader re-parses it), and the second run
/// renders the first run's text unchanged. No field may ask to keep
/// in-field blank lines, and the first output's lines must report the
/// planned blank state before each key — which is what scanning the
/// rendered text yields.
pub proof fn lemma_format_idempotent(
    es: Seq<(Seq<char>, JsonSpec)>,
    text: Seq<char>,
    topg: Seq<Seq<Seq<char>>>,
    subs: Seq<(Seq<char>, Seq<Seq<Seq<char>>>)>,
    lb_between: bool,
    lb_before: Seq<(Seq<char>, Seq<char>)>,
    lb_in: Seq<(Seq<char>, Seq<char>)>,
    ov_between: Option<bool>,
    ov_before: Seq<(Seq<char>, Seq<char>)>,
    ov_in: Seq<(Seq<char>, Seq<char>)>,
)
    requires
        forall|k: Seq<char>| mode_of(ov_in, lb_in, k) != Some("keep"@),
        forall|i: int|
            0 <= i < strict_plan(
                es,
                text,
                topg,
                subs,
                lb_between,
                lb_before,
                lb_in,
                ov_between,
                ov_before,
                ov_in,
            ).len() ==> blank_before_top(
                lines_of(
                    document_text(
                        strict_plan(
                            es,
                            text,
                            topg,
                            subs,
                            lb_between,
                            lb_before,
                            lb_in,
                            ov_between,
                            ov_before,
                            ov_in,
                        ),
                    ),
                ),
                #[trigger] strict_plan(
                    es,
                    text,
                    topg,
                    subs,
                    lb_between,
                    lb_before,
                    lb_in,
                    ov_between,
                    ov_before,
                    ov_in,
                )[i].key,
            ) == strict_plan(
                es,
                text,
                topg,
                subs,
                lb_between,
                lb_before,
                lb_in,
                ov_between,
                ov_before,
                ov_in,
            )[i].blank,
    ensures
        format_text(
            JsonSpec::Obj(
                plan_entries(
                    strict_plan(
                        es,
                        text,
                        topg,
                        subs,
                        lb_between,
                        lb_before,
                        lb_in,
                        ov_between,
                        ov_before,
                        ov_in,
                    ),
                ),
            ),
            document_text(
                strict_plan(
                    es,
                    text,
                    topg,
                    subs,
                    lb_between,
                    lb_before,
                    lb_in,
                    ov_between,
                    ov_before,
                    ov_in,
                ),
            ),
            topg,
            subs,
            lb_between,
            lb_before,
            lb_in,
            ov_between,
            ov_before,
            ov_in,
            true,
        ) == document_text(
            strict_plan(
                es,
                text,
                topg,
                subs,
                lb_between,
                lb_before,
                lb_in,
                ov_between,
                ov_before,
                ov_in,
            ),
        ),
{
    let p1 = strict_plan(
        es,
        text,
        topg,
        subs,
        lb_between,
        lb_before,
        lb_in,
        ov_between,
        ov_before,
        ov_in,
    );
    let t1 = document_text(p1);
    lemma_format_plan_stable(
        es,
        lines_of(text),
        lines_of(t1),
        topg,
        subs,
        lb_between,
        lb_before,
        lb_in,
        ov_between,
        ov_before,
        ov_in,
    );
}

} // verus!
