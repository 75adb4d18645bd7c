//! Pretty rendering of a document as lines.
//!
//! The canonical layout puts one key per line, indents two spaces per
//! nesting level, and attaches commas to the last line of each entry.
//! Blank lines appear only where the caller's plan asks for them: before
//! a top-level entry, or before a direct child of a top-level object
//! field. The document text is the lines joined with a newline after
//! each, so rendered files always end with a newline.

use vstd::prelude::*;
use crate::json::{JsonSpec, JsonValue, deep_list, deep_entries, lemma_deep_list,
    lemma_deep_entries};
use crate::render::{compact, esc, push_compact, push_esc};
use crate::textutil::chars_of;

verus! {

/// One planned top-level entry: its key, value, whether a blank line
/// precedes it, and which of its direct children (when the value is an
/// object) get a blank line before them.
pub struct RenderEntry {
    pub key: String,
    pub value: JsonValue,
    pub blank_before: bool,
    pub child_blanks: Vec<bool>,
}

/// Mathematical form of a planned entry.
pub struct EntrySpec {
    pub key: Seq<char>,
    pub value: JsonSpec,
    pub blank: bool,
    pub child_blanks: Seq<bool>,
}

impl DeepView for RenderEntry {
    type V = EntrySpec;

    open spec fn deep_view(&self) -> EntrySpec {
        EntrySpec {
            key: self.key@,
            value: self.value.deep(),
            blank: self.blank_before,
            child_blanks: self.child_blanks@,
        }
    }
}

broadcast use crate::textutil::lemma_char_vec_deep_view;

/// Whether position `i` of a blank list asks for a blank line.
pub open spec fn bl_at(blanks: Seq<bool>, i: int) -> bool {
    0 <= i < blanks.len() && blanks[i]
}

/// The list of lines with a comma appended to its last line.
pub open spec fn with_comma(ls: Seq<Seq<char>>) -> Seq<Seq<char>> {
    ls.update(ls.len() - 1, ls.last().push(','))
}

/// The two-space indent for the given nesting step.
pub open spec fn ind2() -> Seq<char> {
    seq![' ', ' ']
}

/// The first line fragment of a value: the full text of a scalar or
/// empty container, or the opening bracket of a filled one.
pub open spec fn vhead(v: JsonSpec) -> Seq<char> {
    match v {
        JsonSpec::Arr(es) => if es.len() == 0 {
            seq!['[', ']']
        } else {
            seq!['[']
        },
        JsonSpec::Obj(es) => if es.len() == 0 {
            seq!['{', '}']
        } else {
            seq!['{']
        },
        _ => compact(v),
    }
}

/// The lines of a value after its head fragment, each carrying its own
/// indentation; `pind` is the indentation of the line the head sits on.
/// `blanks` asks for blank lines before direct children of an object.
pub open spec fn vtail(v: JsonSpec, pind: Seq<char>, blanks: Seq<bool>) -> Seq<Seq<char>>
    decreases v,
{
    match v {
        JsonSpec::Arr(es) => if es.len() == 0 {
            Seq::empty()
        } else {
            items_lines(v->Arr_0, pind + ind2()) + seq![pind + seq![']']]
        },
        JsonSpec::Obj(es) => if es.len() == 0 {
            Seq::empty()
        } else {
            entries_lines(v->Obj_0, pind + ind2(), blanks, 0) + seq![pind + seq!['}']]
        },
        _ => Seq::empty(),
    }
}

/// The lines of consecutive array items at indentation `pind`.
pub open spec fn items_lines(es: Seq<JsonSpec>, pind: Seq<char>) -> Seq<Seq<char>>
    decreases es,
{
    if es.len() == 0 {
        Seq::empty()
    } else {
        let b = seq![pind + vhead(es[0])] + vtail(es[0], pind, Seq::empty());
        if es.len() == 1 {
            b
        } else {
            with_comma(b) + items_lines(es.drop_first(), pind)
        }
    }
}

/// The head line of one object entry.
pub open spec fn entry_head_line(pind: Seq<char>, k: Seq<char>, v: JsonSpec) -> Seq<char> {
    pind + seq!['"'] + esc(k) + seq!['"', ':', ' '] + vhead(v)
}

/// The lines of consecutive object entries at indentation `pind`, with a
/// blank line before entry `off + i` when `bl_at(blanks, off + i)`.
pub open spec fn entries_lines(
    es: Seq<(Seq<char>, JsonSpec)>,
    pind: Seq<char>,
    blanks: Seq<bool>,
    off: int,
) -> Seq<Seq<char>>
    decreases es,
{
    if es.len() == 0 {
        Seq::empty()
    } else {
        let lead: Seq<Seq<char>> = if bl_at(blanks, off) {
            seq![Seq::<char>::empty()]
        } else {
            Seq::empty()
        };
        let b = lead + seq![entry_head_line(pind, es[0].0, es[0].1)] + vtail(
            es[0].1,
            pind,
            Seq::empty(),
        );
        if es.len() == 1 {
            b
        } else {
            with_comma(b) + entries_lines(es.drop_first(), pind, blanks, off + 1)
        }
    }
}

/// The lines of one planned top-level entry, comma not yet attached.
pub open spec fn top_entry_lines(e: EntrySpec) -> Seq<Seq<char>> {
    let lead: Seq<Seq<char>> = if e.blank {
        seq![Seq::<char>::empty()]
    } else {
        Seq::empty()
    };
    lead + seq![entry_head_line(ind2(), e.key, e.value)] + vtail(e.value, ind2(), e.child_blanks)
}

/// The lines of consecutive planned top-level entries.
pub open spec fn top_lines(plan: Seq<EntrySpec>) -> Seq<Seq<char>>
    decreases plan.len(),
{
    if plan.len() == 0 {
        Seq::empty()
    } else if plan.len() == 1 {
        top_entry_lines(plan[0])
    } else {
        with_comma(top_entry_lines(plan[0])) + top_lines(plan.drop_first())
    }
}

/// All lines of a rendered document.
pub open spec fn document_lines(plan: Seq<EntrySpec>) -> Seq<Seq<char>> {
    if plan.len() == 0 {
        seq![seq!['{', '}']]
    } else {
        seq![seq!['{']] + top_lines(plan) + seq![seq!['}']]
    }
}

/// The lines joined, a newline after each.
pub open spec fn join_lines(ls: Seq<Seq<char>>) -> Seq<char>
    decreases ls.len(),
{
    if ls.len() == 0 {
        Seq::empty()
    } else {
        ls[0] + seq!['\n'] + join_lines(ls.drop_first())
    }
}

/// The canonical text of a planned document.
pub open spec fn document_text(plan: Seq<EntrySpec>) -> Seq<char> {
    join_lines(document_lines(plan))
}

/// A copy of a character vector.
pub fn copy_chars(v: &Vec<char>) -> (out: Vec<char>)
    ensures
        out@ == v@,
{
    let mut out: Vec<char> = Vec::new();
    let mut i: usize = 0;
    while i < v.len()
        invariant
            i <= v@.len(),
            out@ == v@.subrange(0, i as int),
        decreases v@.len() - i,
    {
        out.push(v[i]);
        proof {
            assert(out@ =~= v@.subrange(0, i + 1 as int));
        }
        i = i + 1;
    }
    proof {
        assert(out@ =~= v@);
    }
    out
}

/// Appends a comma to the last line.
fn push_comma_last(lines: &mut Vec<Vec<char>>)
    requires
        old(lines)@.len() > 0,
    ensures
        final(lines).deep_view() == with_comma(old(lines).deep_view()),
{
    let i = lines.len() - 1;
    let mut last = lines.remove(i);
    last.push(',');
    lines.push(last);
    proof {
        assert(lines.deep_view() =~= with_comma(old(lines).deep_view()));
    }
}

/// Moves every line of `src` onto the end of `dst`.
pub fn append_lines(dst: &mut Vec<Vec<char>>, src: Vec<Vec<char>>)
    ensures
        final(dst).deep_view() == old(dst).deep_view() + src.deep_view(),
{
    let mut i: usize = 0;
    while i < src.len()
        invariant
            i <= src@.len(),
            dst.deep_view() == old(dst).deep_view() + src.deep_view().subrange(0, i as int),
        decreases src@.len() - i,
    {
        let line = copy_chars(&src[i]);
        proof {
            assert(line.deep_view() == line@);
            assert(src.deep_view()[i as int] == src@[i as int].deep_view());
        }
        let ghost dpre = dst.deep_view();
        let ghost lview = line.deep_view();
        dst.push(line);
        proof {
            assert(dst.deep_view() =~= dpre.push(lview));
            assert(dpre.push(lview) =~= old(dst).deep_view() + src.deep_view().subrange(
                0,
                i + 1 as int,
            ));
        }
        i = i + 1;
    }
    proof {
        assert(src.deep_view().subrange(0, src@.len() as int) =~= src.deep_view());
        assert(dst.deep_view() =~= old(dst).deep_view() + src.deep_view());
    }
}

/// Renders one value: its head fragment and its tail lines.
pub fn render_value_block(v: &JsonValue, pind: &Vec<char>, blanks: &Vec<bool>) -> (r: (
    Vec<char>,
    Vec<Vec<char>>,
))
    ensures
        r.0@ == vhead(v.deep()),
        r.1.deep_view() == vtail(v.deep(), pind@, blanks@),
    decreases *v,
{
    match v {
        JsonValue::Arr(a) => {
            if a.len() == 0 {
                let mut head: Vec<char> = Vec::new();
                head.push('[');
                head.push(']');
                let tail: Vec<Vec<char>> = Vec::new();
                proof {
                    assert(head@ =~= vhead(v.deep()));
                    assert(deep_list(a@) =~= Seq::<JsonSpec>::empty());
                    assert(tail.deep_view() =~= vtail(v.deep(), pind@, blanks@));
                }
                (head, tail)
            } else {
                let mut head: Vec<char> = Vec::new();
                head.push('[');
                let mut pind2 = copy_chars(pind);
                pind2.push(' ');
                pind2.push(' ');
                proof {
                    assert(pind2@ =~= pind@ + ind2());
                }
                let none: Vec<bool> = Vec::new();
                let mut tail: Vec<Vec<char>> = Vec::new();
                let ghost des = deep_list(a@);
                proof {
                    lemma_deep_list(a@);
                    assert(des.skip(0) =~= des);
                    assert(tail.deep_view() =~= Seq::<Seq<char>>::empty());
                }
                let mut i: usize = 0;
                while i < a.len()
                    invariant
                        i <= a@.len(),
                        v == JsonValue::Arr(*a),
                        a@.len() > 0,
                        pind2@ == pind@ + ind2(),
                        none@ =~= Seq::<bool>::empty(),
                        des == deep_list(a@),
                        des.len() == a@.len(),
                        forall|j: int| 0 <= j < a@.len() ==> des[j] == a@[j].deep(),
                        tail.deep_view() + items_lines(des.skip(i as int), pind2@) == items_lines(
                            des,
                            pind2@,
                        ),
                    decreases a@.len() - i,
                {
                    let ghost pre = tail.deep_view();
                    let ghost rest = des.skip(i as int);
                    proof {
                        assert(decreases_to!(*v => a@[i as int])) by {
                            assert(decreases_to!(*v => v->Arr_0));
                        }
                        assert(rest[0] == a@[i as int].deep());
                        assert(rest.drop_first() =~= des.skip(i + 1));
                    }
                    let (h, t) = render_value_block(&a[i], &pind2, &none);
                    let mut block: Vec<Vec<char>> = Vec::new();
                    let mut first = copy_chars(&pind2);
                    let mut hi: usize = 0;
                    while hi < h.len()
                        invariant
                            hi <= h@.len(),
                            first@ == pind2@ + h@.subrange(0, hi as int),
                        decreases h@.len() - hi,
                    {
                        first.push(h[hi]);
                        proof {
                            assert(first@ =~= pind2@ + h@.subrange(0, hi + 1 as int));
                        }
                        hi = hi + 1;
                    }
                    proof {
                        assert(first@ =~= pind2@ + h@);
                    }
                    block.push(first);
                    proof {
                        assert(block.deep_view() =~= seq![pind2@ + h@]);
                    }
                    append_lines(&mut block, t);
                    let ghost bspec = seq![pind2@ + vhead(rest[0])] + vtail(
                        rest[0],
                        pind2@,
                        Seq::empty(),
                    );
                    proof {
                        assert(block.deep_view() =~= bspec);
                        assert(block@.len() == block.deep_view().len());
                    }
                    if i + 1 < a.len() {
                        push_comma_last(&mut block);
                        append_lines(&mut tail, block);
                        proof {
                            assert(rest.len() > 1);
                            assert(items_lines(rest, pind2@) == with_comma(bspec) + items_lines(
                                rest.drop_first(),
                                pind2@,
                            ));
                            assert(tail.deep_view() + items_lines(des.skip(i + 1), pind2@)
                                =~= pre + items_lines(rest, pind2@));
                        }
                    } else {
                        append_lines(&mut tail, block);
                        proof {
                            assert(rest.len() == 1);
                            assert(items_lines(rest, pind2@) == bspec);
                            assert(des.skip(i + 1) =~= Seq::<JsonSpec>::empty());
                            assert(tail.deep_view() + items_lines(des.skip(i + 1), pind2@)
                                =~= pre + items_lines(rest, pind2@));
                        }
                    }
                    i = i + 1;
                }
                let mut closer = copy_chars(pind);
                closer.push(']');
                proof {
                    assert(closer@ =~= pind@ + seq![']']);
                    assert(closer.deep_view() == closer@);
                }
                tail.push(closer);
                proof {
                    assert(des.skip(a@.len() as int) =~= Seq::<JsonSpec>::empty());
                    assert(head@ =~= vhead(v.deep()));
                    assert(tail.deep_view() =~= vtail(v.deep(), pind@, blanks@));
                }
                (head, tail)
            }
        },
        JsonValue::Obj(o) => {
            if o.len() == 0 {
                let mut head: Vec<char> = Vec::new();
                head.push('{');
                head.push('}');
                let tail: Vec<Vec<char>> = Vec::new();
                proof {
                    assert(head@ =~= vhead(v.deep()));
                    assert(deep_entries(o@) =~= Seq::<(Seq<char>, JsonSpec)>::empty());
                    assert(tail.deep_view() =~= vtail(v.deep(), pind@, blanks@));
                }
                (head, tail)
            } else {
                let mut head: Vec<char> = Vec::new();
                head.push('{');
                let mut pind2 = copy_chars(pind);
                pind2.push(' ');
                pind2.push(' ');
                proof {
                    assert(pind2@ =~= pind@ + ind2());
                }
                let none: Vec<bool> = Vec::new();
                let mut tail: Vec<Vec<char>> = Vec::new();
                let ghost des = deep_entries(o@);
                proof {
                    lemma_deep_entries(o@);
                    assert(des.skip(0) =~= des);
                    assert(tail.deep_view() =~= Seq::<Seq<char>>::empty());
                }
                let mut i: usize = 0;
                while i < o.len()
                    invariant
                        i <= o@.len(),
                        v == JsonValue::Obj(*o),
                        o@.len() > 0,
                        pind2@ == pind@ + ind2(),
                        none@ =~= Seq::<bool>::empty(),
                        des == deep_entries(o@),
                        des.len() == o@.len(),
                        forall|j: int| 0 <= j < o@.len() ==> des[j] == (o@[j].0@, o@[j].1.deep()),
                        tail.deep_view() + entries_lines(
                            des.skip(i as int),
                            pind2@,
                            blanks@,
                            i as int,
                        ) == entries_lines(des, pind2@, blanks@, 0),
                    decreases o@.len() - i,
                {
                    let ghost pre = tail.deep_view();
                    let ghost rest = des.skip(i as int);
                    proof {
                        assert(decreases_to!(*v => o@[i as int].1)) by {
                            assert(decreases_to!(*v => v->Obj_0));
                        }
                        assert(rest[0] == (o@[i as int].0@, o@[i as int].1.deep()));
                        assert(rest.drop_first() =~= des.skip(i + 1));
                    }
                    let blank = i < blanks.len() && blanks[i];
                    let (h, t) = render_value_block(&o[i].1, &pind2, &none);
                    let mut block: Vec<Vec<char>> = Vec::new();
                    if blank {
                        block.push(Vec::new());
                    }
                    let mut first = copy_chars(&pind2);
                    first.push('"');
                    let kcs = chars_of(o[i].0.as_str());
                    push_esc(&mut first, kcs.as_slice());
                    first.push('"');
                    first.push(':');
                    first.push(' ');
                    let mut hi: usize = 0;
                    let ghost fpre = first@;
                    while hi < h.len()
                        invariant
                            hi <= h@.len(),
                            first@ == fpre + h@.subrange(0, hi as int),
                        decreases h@.len() - hi,
                    {
                        first.push(h[hi]);
                        proof {
                            assert(first@ =~= fpre + h@.subrange(0, hi + 1 as int));
                        }
                        hi = hi + 1;
                    }
                    proof {
                        assert(first@ =~= entry_head_line(pind2@, rest[0].0, rest[0].1));
                    }
                    block.push(first);
                    append_lines(&mut block, t);
                    let ghost lead: Seq<Seq<char>> = if bl_at(blanks@, i as int) {
                        seq![Seq::<char>::empty()]
                    } else {
                        Seq::empty()
                    };
                    let ghost bspec = lead + seq![
                        entry_head_line(pind2@, rest[0].0, rest[0].1),
                    ] + vtail(rest[0].1, pind2@, Seq::empty());
                    proof {
                        assert(block.deep_view() =~= bspec);
                        assert(block@.len() == block.deep_view().len());
                        assert(bspec.len() > 0);
                    }
                    if i + 1 < o.len() {
                        push_comma_last(&mut block);
                        append_lines(&mut tail, block);
                        proof {
                            assert(rest.len() > 1);
                            assert(entries_lines(rest, pind2@, blanks@, i as int) == with_comma(
                                bspec,
                            ) + entries_lines(rest.drop_first(), pind2@, blanks@, i + 1));
                            assert(tail.deep_view() + entries_lines(
                                des.skip(i + 1),
                                pind2@,
                                blanks@,
                                i + 1,
                            ) =~= pre + entries_lines(rest, pind2@, blanks@, i as int));
                        }
                    } else {
                        append_lines(&mut tail, block);
                        proof {
                            assert(rest.len() == 1);
                            assert(entries_lines(rest, pind2@, blanks@, i as int) == bspec);
                            assert(des.skip(i + 1) =~= Seq::<(Seq<char>, JsonSpec)>::empty());
                            assert(tail.deep_view() + entries_lines(
                                des.skip(i + 1),
                                pind2@,
                                blanks@,
                                i + 1,
                            ) =~= pre + entries_lines(rest, pind2@, blanks@, i as int));
                        }
                    }
                    i = i + 1;
                }
                let mut closer = copy_chars(pind);
                closer.push('}');
                proof {
                    assert(closer@ =~= pind@ + seq!['}']);
                    assert(closer.deep_view() == closer@);
                }
                tail.push(closer);
                proof {
                    assert(des.skip(o@.len() as int) =~= Seq::<(Seq<char>, JsonSpec)>::empty());
                    assert(head@ =~= vhead(v.deep()));
                    assert(tail.deep_view() =~= vtail(v.deep(), pind@, blanks@));
                }
                (head, tail)
            }
        },
        _ => {
            let mut head: Vec<char> = Vec::new();
            push_compact(&mut head, v);
            let tail: Vec<Vec<char>> = Vec::new();
            proof {
                assert(head@ =~= vhead(v.deep()));
                assert(tail.deep_view() =~= vtail(v.deep(), pind@, blanks@));
            }
            (head, tail)
        },
    }
}

/// Renders a whole planned document as lines.
pub fn render_document_lines(plan: &Vec<RenderEntry>) -> (ls: Vec<Vec<char>>)
    ensures
        ls.deep_view() == document_lines(plan.deep_view()),
{
    let mut ls: Vec<Vec<char>> = Vec::new();
    if plan.len() == 0 {
        let mut only: Vec<char> = Vec::new();
        only.push('{');
        only.push('}');
        proof {
            assert(only@ =~= seq!['{', '}']);
            assert(only.deep_view() == only@);
        }
        ls.push(only);
        proof {
            assert(ls.deep_view() =~= document_lines(plan.deep_view()));
        }
        return ls;
    }
    let mut opener: Vec<char> = Vec::new();
    opener.push('{');
    ls.push(opener);
    let ghost ps = plan.deep_view();
    proof {
        assert(ps.skip(0) =~= ps);
        assert(ls.deep_view() =~= seq![seq!['{']]);
    }
    let mut i: usize = 0;
    while i < plan.len()
        invariant
            i <= plan@.len(),
            plan@.len() > 0,
            ps == plan.deep_view(),
            ps.len() == plan@.len(),
            ls.deep_view() + top_lines(ps.skip(i as int)) == seq![seq!['{']] + top_lines(ps),
        decreases plan@.len() - i,
    {
        let ghost pre = ls.deep_view();
        let ghost rest = ps.skip(i as int);
        proof {
            assert(rest[0] == plan@[i as int].deep_view());
            assert(rest.drop_first() =~= ps.skip(i + 1));
        }
        let e = &plan[i];
        let mut block: Vec<Vec<char>> = Vec::new();
        if e.blank_before {
            block.push(Vec::new());
        }
        let mut first: Vec<char> = Vec::new();
        first.push(' ');
        first.push(' ');
        first.push('"');
        let kcs = chars_of(e.key.as_str());
        push_esc(&mut first, kcs.as_slice());
        first.push('"');
        first.push(':');
        first.push(' ');
        let ip: Vec<char> = {
            let mut t: Vec<char> = Vec::new();
            t.push(' ');
            t.push(' ');
            t
        };
        proof {
            assert(ip@ =~= ind2());
        }
        let (h, t) = render_value_block(&e.value, &ip, &e.child_blanks);
        let mut hi: usize = 0;
        let ghost fpre = first@;
        while hi < h.len()
            invariant
                hi <= h@.len(),
                first@ == fpre + h@.subrange(0, hi as int),
            decreases h@.len() - hi,
        {
            first.push(h[hi]);
            proof {
                assert(first@ =~= fpre + h@.subrange(0, hi + 1 as int));
            }
            hi = hi + 1;
        }
        proof {
            assert(first@ =~= entry_head_line(ind2(), rest[0].key, rest[0].value));
        }
        block.push(first);
        append_lines(&mut block, t);
        proof {
            assert(block.deep_view() =~= top_entry_lines(rest[0]));
            assert(block@.len() == block.deep_view().len());
            assert(top_entry_lines(rest[0]).len() > 0);
        }
        if i + 1 < plan.len() {
            push_comma_last(&mut block);
            append_lines(&mut ls, block);
            proof {
                assert(rest.len() > 1);
                assert(top_lines(rest) == with_comma(top_entry_lines(rest[0])) + top_lines(
                    rest.drop_first(),
                ));
                assert(ls.deep_view() + top_lines(ps.skip(i + 1)) =~= pre + top_lines(rest));
            }
        } else {
            append_lines(&mut ls, block);
            proof {
                assert(rest.len() == 1);
                assert(top_lines(rest) == top_entry_lines(rest[0]));
                assert(ps.skip(i + 1) =~= Seq::<EntrySpec>::empty());
                assert(ls.deep_view() + top_lines(ps.skip(i + 1)) =~= pre + top_lines(rest));
            }
        }
        i = i + 1;
    }
    let mut closer: Vec<char> = Vec::new();
    closer.push('}');
    ls.push(closer);
    proof {
        assert(ps.skip(ps.len() as int) =~= Seq::<EntrySpec>::empty());
        assert(ls.deep_view() =~= document_lines(ps));
    }
    ls
}

/// Joins lines into one text, a newline after each line.
pub fn join_lines_exec(ls: &Vec<Vec<char>>) -> (t: Vec<char>)
    ensures
        t@ == join_lines(ls.deep_view()),
{
    let mut t: Vec<char> = Vec::new();
    let ghost lss = ls.deep_view();
    proof {
        assert(lss.skip(0) =~= lss);
    }
    let mut i: usize = 0;
    while i < ls.len()
        invariant
            i <= ls@.len(),
            lss == ls.deep_view(),
            lss.len() == ls@.len(),
            t@ + join_lines(lss.skip(i as int)) == join_lines(lss),
        decreases ls@.len() - i,
    {
        let ghost pre = t@;
        let ghost rest = lss.skip(i as int);
        proof {
            assert(rest[0] == ls@[i as int]@);
            assert(rest.drop_first() =~= lss.skip(i + 1));
        }
        let mut j: usize = 0;
        let line = &ls[i];
        while j < line.len()
            invariant
                j <= line@.len(),
                t@ == pre + line@.subrange(0, j as int),
            decreases line@.len() - j,
        {
            t.push(line[j]);
            proof {
                assert(t@ =~= pre + line@.subrange(0, j + 1 as int));
            }
            j = j + 1;
        }
        t.push('\n');
        proof {
            assert(line@.subrange(0, line@.len() as int) =~= line@);
            assert(t@ =~= pre + (rest[0] + seq!['\n']));
            assert(t@ + join_lines(lss.skip(i + 1)) =~= pre + join_lines(rest));
        }
        i = i + 1;
    }
    proof {
        assert(lss.skip(lss.len() as int) =~= Seq::<Seq<char>>::empty());
        assert(t@ =~= join_lines(lss));
    }
    t
}

} // verus!
