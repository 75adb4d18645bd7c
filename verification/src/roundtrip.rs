//! Why re-formatting the formatter's own output changes nothing.
//!
//! The renderer writes one key per line and the scanner reads blank-line
//! evidence back off those lines. This module proves the two fit: for a
//! document whose keys are pairwise distinct and free of characters that
//! need escaping, scanning the canonical output reports exactly the
//! planned blank lines, so a second strict formatting run (with no
//! in-field keeps) reproduces its input byte for byte.

use vstd::prelude::*;
use crate::json::JsonSpec;
use crate::render::{esc, esc_char, compact, compact_list, compact_entries};
use crate::textutil::{dec_digits, dec_int, hex_pad, digit_char, hex_char, is_space, split_on};
use crate::render::dec_scaled;
use crate::pretty::{EntrySpec, vhead, vtail, items_lines, entries_lines, entry_head_line,
    top_entry_lines, top_lines, document_lines, document_text, join_lines, with_comma, ind2,
    bl_at};
use crate::scan::{lines_of, is_blank, starts_with, top_pat, find_top_line, blank_before_top};
use crate::formatter::{strict_plan, plan_entries, mode_of, format_text, lemma_format_idempotent};

verus! {

/// A character that the renderer passes through unescaped and that can
/// stand in a key without disturbing the scanner.
pub open spec fn plain_char(c: char) -> bool {
    c != '"' && c != '\\' && (c as u32) >= 32
}

/// Text made only of plain characters.
pub open spec fn plain_seq(s: Seq<char>) -> bool {
    forall|i: int| 0 <= i < s.len() ==> plain_char(#[trigger] s[i])
}

/// Text without a newline.
pub open spec fn no_nl(s: Seq<char>) -> bool {
    forall|i: int| 0 <= i < s.len() ==> #[trigger] s[i] != '\n'
}

/// Plain text escapes to itself.
pub proof fn lemma_esc_plain(s: Seq<char>)
    requires
        plain_seq(s),
    ensures
        esc(s) == s,
    decreases s.len(),
{
    if s.len() > 0 {
        assert(plain_char(s[0]));
        assert(esc_char(s[0]) == seq![s[0]]);
        assert(plain_seq(s.drop_first())) by {
            assert(forall|i: int|
                0 <= i < s.drop_first().len() ==> #[trigger] s.drop_first()[i] == s[i + 1]);
        }
        lemma_esc_plain(s.drop_first());
        assert(esc(s) =~= s);
    }
}

/// One of the ten decimal digit characters.
pub open spec fn digitish(c: char) -> bool {
    c == '0' || c == '1' || c == '2' || c == '3' || c == '4' || c == '5' || c == '6' || c == '7'
        || c == '8' || c == '9'
}

proof fn lemma_digits_class(n: int)
    ensures
        forall|i: int| 0 <= i < dec_digits(n).len() ==> digitish(#[trigger] dec_digits(n)[i]),
        dec_digits(n).len() >= 1,
    decreases n,
{
    if n >= 10 {
        lemma_digits_class(n / 10);
        assert forall|i: int| 0 <= i < dec_digits(n).len() implies digitish(
            #[trigger] dec_digits(n)[i],
        ) by {
            if i < dec_digits(n / 10).len() {
                assert(dec_digits(n)[i] == dec_digits(n / 10)[i]);
            } else {
                assert(dec_digits(n)[i] == digit_char(n % 10));
            }
        }
    }
}

proof fn lemma_digits_no_nl(n: int)
    ensures
        no_nl(dec_digits(n)),
        dec_digits(n).len() >= 1,
        !is_space(dec_digits(n)[0]),
{
    lemma_digits_class(n);
}

proof fn lemma_hex_no_nl(n: int, k: nat)
    ensures
        no_nl(hex_pad(n, k)),
    decreases k,
{
    if k > 0 {
        lemma_hex_no_nl(n / 16, (k - 1) as nat);
        assert forall|i: int| 0 <= i < hex_pad(n, k).len() implies #[trigger] hex_pad(n, k)[i]
            != '\n' by {
            if i < hex_pad(n / 16, (k - 1) as nat).len() {
                assert(hex_pad(n, k)[i] == hex_pad(n / 16, (k - 1) as nat)[i]);
            } else {
                assert(hex_pad(n, k)[i] == hex_char(if n < 0 {
                    0int
                } else {
                    n % 16
                }));
            }
        }
    }
}

proof fn lemma_dec_scaled_no_nl(m: int, s: int)
    requires
        s >= 0,
    ensures
        no_nl(dec_scaled(m, s)),
        dec_scaled(m, s).len() >= 1,
        !is_space(dec_scaled(m, s)[0]),
{
    let a = if m < 0 { -m } else { m };
    lemma_digits_class(a);
    let ds = dec_digits(a);
    let padded = crate::render::zeros(s + 1 - ds.len()) + ds;
    assert(forall|i: int| 0 <= i < padded.len() ==> (#[trigger] padded[i] == '0' || digitish(
        padded[i],
    )));
    let cut = padded.len() - s;
    assert(cut >= 1);
    let body = padded.subrange(0, cut) + seq!['.'] + padded.subrange(cut, padded.len() as int);
    assert(forall|i: int|
        0 <= i < body.len() ==> (#[trigger] body[i] == '.' || body[i] == '0' || digitish(
            body[i],
        )));
    assert(body[0] == padded[0]);
    if m < 0 {
        assert(dec_scaled(m, s) == seq!['-'] + body);
        assert(forall|i: int|
            0 <= i < dec_scaled(m, s).len() ==> #[trigger] dec_scaled(m, s)[i] == (seq!['-']
                + body)[i]);
    }
}

proof fn lemma_dec_int_no_nl(n: int)
    ensures
        no_nl(dec_int(n)),
        dec_int(n).len() >= 1,
        !is_space(dec_int(n)[0]),
{
    lemma_digits_no_nl(if n < 0 { -n } else { n });
}

/// Escaped text never holds a raw newline.
pub proof fn lemma_esc_no_nl(s: Seq<char>)
    ensures
        no_nl(esc(s)),
    decreases s.len(),
{
    if s.len() > 0 {
        lemma_esc_no_nl(s.drop_first());
        assert(no_nl(esc_char(s[0]))) by {
            let c = s[0];
            if !(c == '"' || c == '\\' || c == '\n' || c == '\r' || c == '\t') && (c as u32) < 32 {
                lemma_hex_no_nl(c as u32 as int, 2);
            }
        }
        assert forall|i: int| 0 <= i < esc(s).len() implies #[trigger] esc(s)[i] != '\n' by {
            if i < esc_char(s[0]).len() {
                assert(esc(s)[i] == esc_char(s[0])[i]);
            } else {
                assert(esc(s)[i] == esc(s.drop_first())[i - esc_char(s[0]).len()]);
            }
        }
    }
}

/// Compact renderings never hold a newline, are never empty, and never
/// start with a space.
pub proof fn lemma_compact_no_nl(v: JsonSpec)
    ensures
        no_nl(compact(v)),
        compact(v).len() >= 1,
        !is_space(compact(v)[0]),
    decreases v,
{
    match v {
        JsonSpec::Null => {},
        JsonSpec::Bool(b) => {},
        JsonSpec::Int(i) => {
            lemma_dec_int_no_nl(i);
        },
        JsonSpec::Dec(m, s) => {
            lemma_dec_scaled_no_nl(m, s as int);
        },
        JsonSpec::Text(t) => {
            lemma_esc_no_nl(t);
            assert forall|i: int| 0 <= i < compact(v).len() implies #[trigger] compact(v)[i]
                != '\n' by {
                if 0 < i < 1 + esc(t).len() {
                    assert(compact(v)[i] == esc(t)[i - 1]);
                }
            }
        },
        JsonSpec::Arr(es) => {
            lemma_compact_list_no_nl(v->Arr_0);
            assert forall|i: int| 0 <= i < compact(v).len() implies #[trigger] compact(v)[i]
                != '\n' by {
                if 0 < i < 1 + compact_list(v->Arr_0).len() {
                    assert(compact(v)[i] == compact_list(v->Arr_0)[i - 1]);
                }
            }
        },
        JsonSpec::Obj(es) => {
            lemma_compact_entries_no_nl(v->Obj_0);
            assert forall|i: int| 0 <= i < compact(v).len() implies #[trigger] compact(v)[i]
                != '\n' by {
                if 0 < i < 1 + compact_entries(v->Obj_0).len() {
                    assert(compact(v)[i] == compact_entries(v->Obj_0)[i - 1]);
                }
            }
        },
    }
}

proof fn lemma_compact_list_no_nl(es: Seq<JsonSpec>)
    ensures
        no_nl(compact_list(es)),
    decreases es,
{
    if es.len() > 0 {
        lemma_compact_no_nl(es[0]);
        if es.len() > 1 {
            lemma_compact_list_no_nl(es.drop_first());
            assert forall|i: int| 0 <= i < compact_list(es).len() implies #[trigger] compact_list(
                es,
            )[i] != '\n' by {
                let h = compact(es[0]);
                if i < h.len() {
                    assert(compact_list(es)[i] == h[i]);
                } else if i == h.len() {
                    assert(compact_list(es)[i] == ',');
                } else {
                    assert(compact_list(es)[i] == compact_list(es.drop_first())[i - h.len() - 1]);
                }
            }
        }
    }
}

proof fn lemma_compact_entries_no_nl(es: Seq<(Seq<char>, JsonSpec)>)
    ensures
        no_nl(compact_entries(es)),
    decreases es,
{
    if es.len() > 0 {
        lemma_compact_no_nl(es[0].1);
        lemma_esc_no_nl(es[0].0);
        let head = seq!['"'] + esc(es[0].0) + seq!['"', ':'] + compact(es[0].1);
        assert(no_nl(head)) by {
            assert forall|i: int| 0 <= i < head.len() implies #[trigger] head[i] != '\n' by {
                if 0 < i < 1 + esc(es[0].0).len() {
                    assert(head[i] == esc(es[0].0)[i - 1]);
                } else if 1 + esc(es[0].0).len() + 2 <= i {
                    assert(head[i] == compact(es[0].1)[i - (esc(es[0].0).len() + 3)]);
                }
            }
        }
        if es.len() > 1 {
            lemma_compact_entries_no_nl(es.drop_first());
            assert forall|i: int| 0 <= i < compact_entries(es).len() implies
                #[trigger] compact_entries(es)[i] != '\n' by {
                if i < head.len() {
                    assert(compact_entries(es)[i] == head[i]);
                } else if i == head.len() {
                    assert(compact_entries(es)[i] == ',');
                } else {
                    assert(compact_entries(es)[i] == compact_entries(es.drop_first())[i - head.len()
                        - 1]);
                }
            }
        }
    }
}

/// The head fragment of a value is never empty, never starts with a
/// space or a quote-opening pattern, and holds no newline.
pub proof fn lemma_vhead_shape(v: JsonSpec)
    ensures
        no_nl(vhead(v)),
        vhead(v).len() >= 1,
        !is_space(vhead(v)[0]),
{
    match v {
        JsonSpec::Arr(es) => {},
        JsonSpec::Obj(es) => {},
        _ => {
            lemma_compact_no_nl(v);
        },
    }
}

/// Splitting after appending separator-free text extends the last piece.
proof fn lemma_split_extend(q: Seq<char>, w: Seq<char>, sep: char)
    requires
        forall|i: int| 0 <= i < w.len() ==> #[trigger] w[i] != sep,
    ensures
        split_on(q + w, sep) == split_on(q, sep).update(
            split_on(q, sep).len() - 1,
            split_on(q, sep).last() + w,
        ),
    decreases w.len(),
{
    crate::textutil::lemma_split_on_nonempty(q, sep);
    if w.len() == 0 {
        assert(q + w =~= q);
        assert(split_on(q, sep).update(
            split_on(q, sep).len() - 1,
            split_on(q, sep).last() + w,
        ) =~= split_on(q, sep)) by {
            assert(split_on(q, sep).last() + w =~= split_on(q, sep).last());
        }
    } else {
        lemma_split_extend(q, w.drop_last(), sep);
        let p = q + w;
        assert(p.len() > 0);
        assert(p.last() == w.last());
        assert(p.last() != sep);
        assert(p.drop_last() =~= q + w.drop_last());
        let r1 = split_on(q + w.drop_last(), sep);
        crate::textutil::lemma_split_on_nonempty(q + w.drop_last(), sep);
        assert(split_on(p, sep) == r1.update(r1.len() - 1, r1.last().push(w.last())));
        let r0 = split_on(q, sep);
        assert(r1 == r0.update(r0.len() - 1, r0.last() + w.drop_last()));
        assert(r1.len() == r0.len());
        assert(r1.last() == r0.last() + w.drop_last());
        assert(split_on(p, sep) =~= r0.update(r0.len() - 1, r0.last() + w)) by {
            assert(r1.last().push(w.last()) =~= r0.last() + w);
        }
    }
}

/// Splitting the join of newline-free lines recovers the lines, plus
/// one empty trailing piece for the final newline.
pub proof fn lemma_split_join(ls: Seq<Seq<char>>)
    requires
        forall|i: int| 0 <= i < ls.len() ==> no_nl(#[trigger] ls[i]),
    ensures
        lines_of(join_lines(ls)) == ls.push(Seq::<char>::empty()),
    decreases ls.len(),
{
    if ls.len() == 0 {
        assert(join_lines(ls) =~= Seq::<char>::empty());
        assert(lines_of(join_lines(ls)) =~= ls.push(Seq::<char>::empty()));
    } else {
        // Reassociate the join from the right.
        lemma_join_snoc(ls);
        let front = join_lines(ls.drop_last());
        assert(join_lines(ls) == front + ls.last() + seq!['\n']);
        assert(forall|i: int|
            0 <= i < ls.drop_last().len() ==> no_nl(#[trigger] ls.drop_last()[i]));
        lemma_split_join(ls.drop_last());
        let p = join_lines(ls);
        assert(p.len() > 0 && p.last() == '\n');
        assert(p.drop_last() =~= front + ls.last());
        lemma_split_extend(front, ls.last(), '\n');
        let r0 = split_on(front, '\n');
        crate::textutil::lemma_split_on_nonempty(front, '\n');
        assert(r0 == ls.drop_last().push(Seq::<char>::empty()));
        assert(split_on(p.drop_last(), '\n') == r0.update(r0.len() - 1, r0.last() + ls.last()));
        assert(split_on(p, '\n') == split_on(p.drop_last(), '\n').push(Seq::empty()));
        assert(r0.last() + ls.last() =~= ls.last());
        assert(split_on(p, '\n') =~= ls.push(Seq::<char>::empty()));
    }
}

/// Joining is also a fold from the right.
proof fn lemma_join_snoc(ls: Seq<Seq<char>>)
    requires
        ls.len() > 0,
    ensures
        join_lines(ls) == join_lines(ls.drop_last()) + ls.last() + seq!['\n'],
    decreases ls.len(),
{
    if ls.len() == 1 {
        assert(join_lines(ls.drop_first()) =~= Seq::<char>::empty());
        assert(join_lines(ls.drop_last()) =~= Seq::<char>::empty());
        assert(join_lines(ls) =~= join_lines(ls.drop_last()) + ls.last() + seq!['\n']);
    } else {
        lemma_join_snoc(ls.drop_first());
        assert(ls.drop_first().drop_last() =~= ls.drop_last().drop_first());
        assert(ls.drop_first().last() == ls.last());
        assert(join_lines(ls) == ls[0] + seq!['\n'] + join_lines(ls.drop_first()));
        assert(join_lines(ls.drop_last()) == ls.drop_last()[0] + seq!['\n'] + join_lines(
            ls.drop_last().drop_first(),
        ));
        assert(ls.drop_last()[0] == ls[0]);
        assert(join_lines(ls) =~= join_lines(ls.drop_last()) + ls.last() + seq!['\n']);
    }
}

/// A line inside a rendered block: it carries its indentation, is
/// neither blank nor split by a newline.
pub open spec fn block_line(l: Seq<char>, q: Seq<char>) -> bool {
    starts_with(l, q) && l.len() > q.len() && !is_blank(l) && no_nl(l)
}

proof fn lemma_items_shape(es: Seq<JsonSpec>, q: Seq<char>)
    requires
        no_nl(q),
    ensures
        forall|j: int|
            0 <= j < items_lines(es, q).len() ==> block_line(#[trigger] items_lines(es, q)[j], q),
    decreases es,
{
    if es.len() > 0 {
        lemma_vhead_shape(es[0]);
        lemma_vtail_shape(es[0], q);
        let head = q + vhead(es[0]);
        assert(block_line(head, q)) by {
            assert(head.subrange(0, q.len() as int) =~= q);
            assert(head[q.len() as int] == vhead(es[0])[0]);
            assert(!is_space(head[q.len() as int]));
        }
        let b = seq![head] + vtail(es[0], q, Seq::empty());
        assert(forall|j: int| 0 <= j < b.len() ==> block_line(#[trigger] b[j], q)) by {
            assert(forall|j: int|
                1 <= j < b.len() ==> #[trigger] b[j] == vtail(es[0], q, Seq::empty())[j - 1]);
        }
        if es.len() > 1 {
            lemma_items_shape(es.drop_first(), q);
            lemma_with_comma_shape(b, q);
            assert(forall|j: int|
                0 <= j < items_lines(es, q).len() ==> block_line(
                    #[trigger] items_lines(es, q)[j],
                    q,
                )) by {
                assert(forall|j: int|
                    0 <= j < with_comma(b).len() ==> items_lines(es, q)[j] == #[trigger] with_comma(
                        b,
                    )[j]);
                assert(forall|j: int|
                    with_comma(b).len() <= j < items_lines(es, q).len()
                        ==> #[trigger] items_lines(es, q)[j] == items_lines(es.drop_first(), q)[j
                        - with_comma(b).len()]);
            }
        }
    }
}

proof fn lemma_entries_shape(es: Seq<(Seq<char>, JsonSpec)>, q: Seq<char>, off: int)
    requires
        no_nl(q),
    ensures
        forall|j: int|
            0 <= j < entries_lines(es, q, Seq::empty(), off).len() ==> block_line(
                #[trigger] entries_lines(es, q, Seq::empty(), off)[j],
                q,
            ),
    decreases es,
{
    if es.len() > 0 {
        lemma_vhead_shape(es[0].1);
        lemma_vtail_shape(es[0].1, q);
        lemma_esc_no_nl(es[0].0);
        let head = entry_head_line(q, es[0].0, es[0].1);
        assert(block_line(head, q)) by {
            assert(head.subrange(0, q.len() as int) =~= q);
            assert(head[q.len() as int] == '"');
        }
        assert(!bl_at(Seq::empty(), off));
        let b = seq![head] + vtail(es[0].1, q, Seq::empty());
        assert(entries_lines(es, q, Seq::empty(), off) == if es.len() == 1 {
            b
        } else {
            with_comma(b) + entries_lines(es.drop_first(), q, Seq::empty(), off + 1)
        }) by {
            assert(Seq::<Seq<char>>::empty() + b =~= b);
        }
        assert(forall|j: int| 0 <= j < b.len() ==> block_line(#[trigger] b[j], q)) by {
            assert(forall|j: int|
                1 <= j < b.len() ==> #[trigger] b[j] == vtail(es[0].1, q, Seq::empty())[j - 1]);
        }
        if es.len() > 1 {
            lemma_entries_shape(es.drop_first(), q, off + 1);
            lemma_with_comma_shape(b, q);
            assert(forall|j: int|
                0 <= j < entries_lines(es, q, Seq::empty(), off).len() ==> block_line(
                    #[trigger] entries_lines(es, q, Seq::empty(), off)[j],
                    q,
                )) by {
                assert(forall|j: int|
                    0 <= j < with_comma(b).len() ==> entries_lines(es, q, Seq::empty(), off)[j]
                        == #[trigger] with_comma(b)[j]);
                assert(forall|j: int|
                    with_comma(b).len() <= j < entries_lines(es, q, Seq::empty(), off).len()
                        ==> #[trigger] entries_lines(es, q, Seq::empty(), off)[j] == entries_lines(
                        es.drop_first(),
                        q,
                        Seq::empty(),
                        off + 1,
                    )[j - with_comma(b).len()]);
            }
        }
    }
}

/// Every tail line of a value keeps its parent indentation, is not
/// blank, holds no newline, and does not open with a quote right after
/// the parent indentation.
pub proof fn lemma_vtail_shape(v: JsonSpec, pind: Seq<char>)
    requires
        no_nl(pind),
    ensures
        forall|j: int|
            0 <= j < vtail(v, pind, Seq::empty()).len() ==> block_line(
                #[trigger] vtail(v, pind, Seq::empty())[j],
                pind,
            ) && vtail(v, pind, Seq::empty())[j][pind.len() as int] != '"',
    decreases v,
{
    let q = pind + ind2();
    assert(no_nl(q)) by {
        assert(forall|i: int| 0 <= i < q.len() ==> #[trigger] q[i] != '\n');
    }
    match v {
        JsonSpec::Arr(es) => {
            if es.len() > 0 {
                lemma_items_shape(v->Arr_0, q);
                let body = items_lines(v->Arr_0, q);
                let closer = pind + seq![']'];
                assert(block_line(closer, pind) && closer[pind.len() as int] == ']') by {
                    assert(closer.subrange(0, pind.len() as int) =~= pind);
                    assert(!is_space(closer[pind.len() as int]));
                    assert(forall|i: int| 0 <= i < closer.len() ==> #[trigger] closer[i] != '\n');
                }
                assert forall|j: int| 0 <= j < vtail(v, pind, Seq::empty()).len() implies
                    block_line(#[trigger] vtail(v, pind, Seq::empty())[j], pind) && vtail(
                    v,
                    pind,
                    Seq::empty(),
                )[j][pind.len() as int] != '"' by {
                    if j < body.len() {
                        assert(vtail(v, pind, Seq::empty())[j] == body[j]);
                        let l = body[j];
                        assert(starts_with(l, q));
                        assert(l.subrange(0, q.len() as int)[pind.len() as int] == q[pind.len() as int]);
                        assert(l[pind.len() as int] == ' ');
                        assert(l.subrange(0, pind.len() as int) =~= pind);
                    } else {
                        assert(vtail(v, pind, Seq::empty())[j] == closer);
                    }
                }
            }
        },
        JsonSpec::Obj(es) => {
            if es.len() > 0 {
                lemma_entries_shape(v->Obj_0, q, 0);
                let body = entries_lines(v->Obj_0, q, Seq::empty(), 0);
                let closer = pind + seq!['}'];
                assert(block_line(closer, pind) && closer[pind.len() as int] == '}') by {
                    assert(closer.subrange(0, pind.len() as int) =~= pind);
                    assert(!is_space(closer[pind.len() as int]));
                    assert(forall|i: int| 0 <= i < closer.len() ==> #[trigger] closer[i] != '\n');
                }
                assert forall|j: int| 0 <= j < vtail(v, pind, Seq::empty()).len() implies
                    block_line(#[trigger] vtail(v, pind, Seq::empty())[j], pind) && vtail(
                    v,
                    pind,
                    Seq::empty(),
                )[j][pind.len() as int] != '"' by {
                    if j < body.len() {
                        assert(vtail(v, pind, Seq::empty())[j] == body[j]);
                        let l = body[j];
                        assert(starts_with(l, q));
                        assert(l.subrange(0, q.len() as int)[pind.len() as int] == q[pind.len() as int]);
                        assert(l[pind.len() as int] == ' ');
                        assert(l.subrange(0, pind.len() as int) =~= pind);
                    } else {
                        assert(vtail(v, pind, Seq::empty())[j] == closer);
                    }
                }
            }
        },
        _ => {},
    }
}

/// Appending the comma keeps every block-line property.
proof fn lemma_with_comma_shape(b: Seq<Seq<char>>, q: Seq<char>)
    requires
        b.len() > 0,
        forall|j: int| 0 <= j < b.len() ==> block_line(#[trigger] b[j], q),
    ensures
        with_comma(b).len() == b.len(),
        forall|j: int| 0 <= j < b.len() ==> block_line(#[trigger] with_comma(b)[j], q),
        forall|j: int|
            0 <= j < b.len() ==> #[trigger] with_comma(b)[j][q.len() as int] == b[j][q.len() as int],
{
    let last = b.last().push(',');
    assert(block_line(last, q)) by {
        assert(last.subrange(0, q.len() as int) =~= b.last().subrange(0, q.len() as int));
        assert(!is_blank(last)) by {
            let w = choose|i: int| 0 <= i < b.last().len() && !is_space(#[trigger] b.last()[i]);
            assert(!is_space(last[w]));
        }
    }
    assert forall|j: int| 0 <= j < b.len() implies block_line(#[trigger] with_comma(b)[j], q)
        && with_comma(b)[j][q.len() as int] == b[j][q.len() as int] by {
        if j == b.len() - 1 {
            assert(with_comma(b)[j] == last);
            assert(last[q.len() as int] == b.last()[q.len() as int]);
        } else {
            assert(with_comma(b)[j] == b[j]);
        }
    }
}

/// A head line opens key `b` exactly when it renders key `a == b`.
proof fn lemma_head_match(a: Seq<char>, b: Seq<char>, t: Seq<char>)
    requires
        plain_seq(a),
        plain_seq(b),
    ensures
        starts_with(seq![' ', ' ', '"'] + a + seq!['"', ':'] + t, top_pat(b)) == (a == b),
{
    lemma_esc_plain(a);
    lemma_esc_plain(b);
    let line = seq![' ', ' ', '"'] + a + seq!['"', ':'] + t;
    let pat = top_pat(b);
    assert(pat =~= seq![' ', ' ', '"'] + b + seq!['"', ':']);
    if a == b {
        assert(line.subrange(0, pat.len() as int) =~= pat);
    } else {
        if starts_with(line, pat) {
            assert(forall|idx: int|
                0 <= idx < pat.len() ==> #[trigger] line[idx] == pat[idx]) by {
                assert(forall|idx: int|
                    0 <= idx < pat.len() ==> line.subrange(0, pat.len() as int)[idx] == #[trigger] pat[
                        idx
                    ]);
            }
            if a.len() == b.len() {
                assert(a =~= b) by {
                    assert(forall|j: int| 0 <= j < a.len() ==> #[trigger] a[j] == line[3 + j]);
                    assert(forall|j: int| 0 <= j < b.len() ==> #[trigger] pat[3 + j] == b[j]);
                }
            } else if a.len() < b.len() {
                let idx: int = 3 + a.len() as int;
                assert(line[idx] == '"');
                assert(pat[idx] == b[a.len() as int]);
                assert(plain_char(b[a.len() as int]));
            } else {
                let idx: int = 3 + b.len() as int;
                assert(pat[idx] == '"');
                assert(line[idx] == a[b.len() as int]);
                assert(plain_char(a[b.len() as int]));
            }
        }
    }
}

proof fn lemma_find_props(ls: Seq<Seq<char>>, k: Seq<char>)
    ensures
        0 <= find_top_line(ls, k) <= ls.len(),
        find_top_line(ls, k) < ls.len() ==> starts_with(ls[find_top_line(ls, k)], top_pat(k)),
        forall|j: int| 0 <= j < find_top_line(ls, k) ==> !starts_with(#[trigger] ls[j], top_pat(k)),
    decreases ls.len(),
{
    if ls.len() > 0 && !starts_with(ls[0], top_pat(k)) {
        lemma_find_props(ls.drop_first(), k);
        assert forall|j: int| 0 <= j < find_top_line(ls, k) implies !starts_with(
            #[trigger] ls[j],
            top_pat(k),
        ) by {
            if j > 0 {
                assert(ls.drop_first()[j - 1] == ls[j]);
            }
        }
    }
}

proof fn lemma_find_concat(a: Seq<Seq<char>>, b: Seq<Seq<char>>, k: Seq<char>)
    ensures
        find_top_line(a + b, k) == if find_top_line(a, k) < a.len() {
            find_top_line(a, k)
        } else {
            a.len() + find_top_line(b, k)
        },
    decreases a.len(),
{
    lemma_find_props(a, k);
    if a.len() == 0 {
        assert(a + b =~= b);
    } else {
        assert((a + b)[0] == a[0]);
        if !starts_with(a[0], top_pat(k)) {
            lemma_find_concat(a.drop_first(), b, k);
            assert((a + b).drop_first() =~= a.drop_first() + b);
        }
    }
}

/// One rendered top entry's lines, with or without the comma.
pub open spec fn eblock(e: EntrySpec, comma: bool) -> Seq<Seq<char>> {
    if comma {
        with_comma(top_entry_lines(e))
    } else {
        top_entry_lines(e)
    }
}

/// How many blank lines lead one rendered top entry.
pub open spec fn elead(e: EntrySpec) -> int {
    if e.blank {
        1int
    } else {
        0int
    }
}

/// All facts the scanner needs about one rendered top entry, comma
/// attached or not: only the head line opens the entry's own key, lead
/// lines are blank, everything else is not.
proof fn lemma_block_match(e: EntrySpec, k: Seq<char>, comma: bool)
    requires
        plain_seq(e.key),
        plain_seq(k),
        e.child_blanks == Seq::<bool>::empty(),
    ensures
        eblock(e, comma).len() > elead(e),
        forall|j: int|
            0 <= j < eblock(e, comma).len() ==> (starts_with(
                #[trigger] eblock(e, comma)[j],
                top_pat(k),
            ) <==> (j == elead(e) && k == e.key)),
        forall|j: int| 0 <= j < elead(e) ==> is_blank(#[trigger] eblock(e, comma)[j]),
        forall|j: int|
            elead(e) <= j < eblock(e, comma).len() ==> !is_blank(#[trigger] eblock(e, comma)[j]),
        forall|j: int| 0 <= j < eblock(e, comma).len() ==> no_nl(#[trigger] eblock(e, comma)[j]),
{
    lemma_vhead_shape(e.value);
    assert(no_nl(ind2())) by {
        assert(forall|i: int| 0 <= i < ind2().len() ==> #[trigger] ind2()[i] != '\n');
    }
    lemma_vtail_shape(e.value, ind2());
    lemma_esc_plain(e.key);
    let head = entry_head_line(ind2(), e.key, e.value);
    let tail = vtail(e.value, ind2(), e.child_blanks);
    let lead: int = if e.blank { 1int } else { 0int };
    let b0 = top_entry_lines(e);
    assert(b0.len() == lead + 1 + tail.len());
    assert(b0[lead] == head);
    assert(forall|j: int| 0 <= j < lead ==> #[trigger] b0[j] == Seq::<char>::empty());
    assert(forall|j: int| lead + 1 <= j < b0.len() ==> #[trigger] b0[j] == tail[j - lead - 1]);
    // The head line is the base pattern plus a space and the value head.
    assert(head =~= seq![' ', ' ', '"'] + e.key + seq!['"', ':'] + (seq![' '] + vhead(e.value)));
    lemma_head_match(e.key, k, seq![' '] + vhead(e.value));
    if comma {
        lemma_head_match(e.key, k, seq![' '] + vhead(e.value) + seq![',']);
    }
    assert(!is_blank(head)) by {
        assert(head[2] == '"');
        assert(!is_space(head[2]));
    }
    let b = eblock(e, comma);
    assert(b.len() == b0.len());
    let pat = top_pat(k);
    assert(pat.len() >= 5) by {
        lemma_esc_plain(k);
    }
    assert forall|j: int| 0 <= j < b.len() implies (starts_with(#[trigger] b[j], pat) <==> (j
        == lead && k == e.key)) by {
        if j < lead {
            assert(b[j] == Seq::<char>::empty());
            assert(!starts_with(b[j], pat));
        } else if j == lead {
            if comma && j == b.len() - 1 {
                assert(b[j] == head.push(','));
                assert(head.push(',') =~= seq![' ', ' ', '"'] + e.key + seq!['"', ':'] + (
                seq![' '] + vhead(e.value) + seq![',']));
            } else {
                assert(b[j] == head);
            }
        } else {
            let l0 = tail[j - lead - 1];
            assert(block_line(l0, ind2()) && l0[2] != '"');
            if comma && j == b.len() - 1 {
                assert(b[j] == l0.push(','));
                assert(b[j][2] == l0[2]);
            } else {
                assert(b[j] == l0);
            }
            if starts_with(b[j], pat) {
                assert(b[j][2] == pat[2]);
                assert(pat[2] == '"');
            }
        }
    }
    assert forall|j: int| lead <= j < b.len() implies !is_blank(#[trigger] b[j]) by {
        if j == lead {
            if comma && j == b.len() - 1 {
                assert(b[j] == head.push(','));
                assert(!is_space(b[j][2]));
            } else {
                assert(b[j] == head);
            }
        } else {
            let l0 = tail[j - lead - 1];
            assert(!is_blank(l0));
            let w = choose|i: int| 0 <= i < l0.len() && !is_space(#[trigger] l0[i]);
            if comma && j == b.len() - 1 {
                assert(b[j] == l0.push(','));
                assert(!is_space(b[j][w]));
            } else {
                assert(b[j] == l0);
            }
        }
    }
    assert forall|j: int| 0 <= j < lead implies is_blank(#[trigger] b[j]) by {
        assert(b0[j] == Seq::<char>::empty());
        if comma && j == b.len() - 1 {
        } else {
            assert(b[j] == b0[j]);
        }
    }
    assert(no_nl(head)) by {
        assert(forall|i: int| 0 <= i < e.key.len() ==> #[trigger] e.key[i] != '\n');
        assert(forall|i: int|
            0 <= i < head.len() ==> #[trigger] head[i] != '\n');
    }
    assert forall|j: int| 0 <= j < b.len() implies no_nl(#[trigger] b[j]) by {
        let orig: Seq<char> = if j < lead {
            Seq::empty()
        } else if j == lead {
            head
        } else {
            tail[j - lead - 1]
        };
        assert(no_nl(orig));
        if comma && j == b.len() - 1 {
            assert(b[j] == orig.push(','));
            assert(forall|i: int| 0 <= i < b[j].len() ==> #[trigger] b[j][i] != '\n');
        } else {
            assert(b[j] == orig);
        }
    }
}

/// Where the scanner finds each planned key among the rendered entry
/// lines, and what stands on the line before it.
proof fn lemma_scan_tl(plan: Seq<EntrySpec>, i: int)
    requires
        forall|j: int| 0 <= j < plan.len() ==> plain_seq(#[trigger] plan[j].key),
        forall|j1: int, j2: int|
            0 <= j1 < j2 < plan.len() ==> #[trigger] plan[j1].key != #[trigger] plan[j2].key,
        forall|j: int| 0 <= j < plan.len() ==> #[trigger] plan[j].child_blanks == Seq::<bool>::empty(),
        0 <= i < plan.len(),
    ensures
        ({
            let tl = top_lines(plan);
            let f = find_top_line(tl, plan[i].key);
            &&& f < tl.len()
            &&& (plan[i].blank ==> f >= 1 && is_blank(tl[f - 1]))
            &&& (!plan[i].blank ==> ((i == 0 && f == 0) || (f >= 1 && !is_blank(tl[f - 1]))))
        }),
    decreases plan.len(),
{
    let tl = top_lines(plan);
    let k = plan[i].key;
    let e0 = plan[0];
    let lead: int = if e0.blank { 1int } else { 0int };
    lemma_find_props(tl, k);
    if plan.len() == 1 {
        lemma_block_match(e0, k, false);
        let bb = eblock(e0, false);
        assert(tl == bb);
        assert(lead == elead(e0));
        let f = find_top_line(tl, k);
        assert(starts_with(bb[lead], top_pat(k)));
        assert(f == lead) by {
            if f < lead {
                assert(bb[f] == tl[f]);
                assert(!starts_with(bb[f], top_pat(k)));
            }
            if f > lead {
                assert(starts_with(tl[lead], top_pat(k)));
            }
        }
        if e0.blank {
            assert(is_blank(bb[f - 1]));
        } else {
            if f >= 1 {
                assert(!is_blank(bb[f - 1]));
            }
        }
    } else {
        let b = eblock(e0, true);
        let rest = plan.drop_first();
        let tlr = top_lines(rest);
        assert(tl == b + tlr);
        lemma_find_concat(b, tlr, k);
        lemma_find_props(b, k);
        lemma_find_props(tlr, k);
        assert(forall|j: int| 0 <= j < rest.len() ==> plain_seq(#[trigger] rest[j].key)) by {
            assert(forall|j: int| 0 <= j < rest.len() ==> #[trigger] rest[j] == plan[j + 1]);
        }
        assert(forall|j1: int, j2: int|
            0 <= j1 < j2 < rest.len() ==> #[trigger] rest[j1].key != #[trigger] rest[j2].key) by {
            assert(forall|j: int| 0 <= j < rest.len() ==> #[trigger] rest[j] == plan[j + 1]);
        }
        assert(forall|j: int|
            0 <= j < rest.len() ==> #[trigger] rest[j].child_blanks == Seq::<bool>::empty()) by {
            assert(forall|j: int| 0 <= j < rest.len() ==> #[trigger] rest[j] == plan[j + 1]);
        }
        if i == 0 {
            lemma_block_match(e0, k, true);
            assert(lead == elead(e0));
            let fb = find_top_line(b, k);
            assert(starts_with(eblock(e0, true)[lead], top_pat(k)));
            assert(fb == lead) by {
                if fb < lead {
                    assert(eblock(e0, true)[fb] == b[fb]);
                    assert(!starts_with(eblock(e0, true)[fb], top_pat(k)));
                }
                if fb > lead {
                    assert(starts_with(b[lead], top_pat(k)));
                }
            }
            let f = find_top_line(tl, k);
            assert(f == lead);
            assert(f < tl.len());
            if e0.blank {
                assert(tl[f - 1] == b[f - 1]);
                assert(is_blank(eblock(e0, true)[f - 1]));
            }
        } else {
            lemma_block_match(e0, k, true);
            assert(k != e0.key) by {
                assert(plan[0].key != plan[i].key);
            }
            let fb = find_top_line(b, k);
            assert(fb == b.len()) by {
                if fb < b.len() {
                    assert(starts_with(b[fb], top_pat(k)));
                    assert(eblock(e0, true)[fb] == b[fb]);
                    assert(!starts_with(eblock(e0, true)[fb], top_pat(k)));
                }
            }
            lemma_scan_tl(rest, i - 1);
            assert(rest[i - 1] == plan[i]);
            let fr = find_top_line(tlr, k);
            let f = find_top_line(tl, k);
            assert(f == b.len() + fr);
            assert(f < tl.len());
            assert(forall|j: int| 0 <= j < tlr.len() ==> #[trigger] tl[b.len() + j] == tlr[j]);
            if plan[i].blank {
                assert(fr >= 1 && is_blank(tlr[fr - 1]));
                assert(tl[f - 1] == tlr[fr - 1]);
            } else {
                if i - 1 == 0 && fr == 0 {
                    assert(tl[f - 1] == b[b.len() - 1]);
                    assert(!is_blank(eblock(e0, true)[b.len() - 1]));
                } else {
                    assert(fr >= 1 && !is_blank(tlr[fr - 1]));
                    assert(tl[f - 1] == tlr[fr - 1]);
                }
            }
        }
    }
}

/// No rendered entry line carries a newline.
proof fn lemma_tl_no_nl(plan: Seq<EntrySpec>)
    requires
        forall|j: int| 0 <= j < plan.len() ==> plain_seq(#[trigger] plan[j].key),
        forall|j: int| 0 <= j < plan.len() ==> #[trigger] plan[j].child_blanks == Seq::<bool>::empty(),
    ensures
        forall|j: int| 0 <= j < top_lines(plan).len() ==> no_nl(#[trigger] top_lines(plan)[j]),
    decreases plan.len(),
{
    let tl = top_lines(plan);
    if plan.len() == 1 {
        lemma_block_match(plan[0], plan[0].key, false);
        assert forall|j: int| 0 <= j < tl.len() implies no_nl(#[trigger] tl[j]) by {
            assert(tl[j] == eblock(plan[0], false)[j]);
        }
    } else if plan.len() > 1 {
        lemma_block_match(plan[0], plan[0].key, true);
        let rest = plan.drop_first();
        assert(forall|j: int| 0 <= j < rest.len() ==> #[trigger] rest[j] == plan[j + 1]);
        lemma_tl_no_nl(rest);
        let b = eblock(plan[0], true);
        let tlr = top_lines(rest);
        assert(tl == b + tlr);
        assert forall|j: int| 0 <= j < tl.len() implies no_nl(#[trigger] tl[j]) by {
            if j < b.len() {
                assert(tl[j] == eblock(plan[0], true)[j]);
            } else {
                assert(tl[j] == tlr[j - b.len()]);
            }
        }
    }
}

/// Scanning the rendered document reports exactly the planned blank
/// state before every key.
pub proof fn lemma_scan_of_render(plan: Seq<EntrySpec>, i: int)
    requires
        forall|j: int| 0 <= j < plan.len() ==> plain_seq(#[trigger] plan[j].key),
        forall|j1: int, j2: int|
            0 <= j1 < j2 < plan.len() ==> #[trigger] plan[j1].key != #[trigger] plan[j2].key,
        forall|j: int| 0 <= j < plan.len() ==> #[trigger] plan[j].child_blanks == Seq::<bool>::empty(),
        0 <= i < plan.len(),
    ensures
        blank_before_top(lines_of(document_text(plan)), plan[i].key) == plan[i].blank,
{
    let k = plan[i].key;
    lemma_scan_tl(plan, i);
    lemma_tl_no_nl(plan);
    let tl = top_lines(plan);
    let dl = document_lines(plan);
    assert(dl == seq![seq!['{']] + tl + seq![seq!['}']]);
    assert(forall|j: int| 0 <= j < dl.len() ==> no_nl(#[trigger] dl[j])) by {
        assert(dl[0] =~= seq!['{']);
        assert(dl[dl.len() - 1] =~= seq!['}']);
        assert(forall|j: int| 1 <= j < dl.len() - 1 ==> #[trigger] dl[j] == tl[j - 1]);
    }
    lemma_split_join(dl);
    let l2 = lines_of(document_text(plan));
    assert(l2 == dl.push(Seq::<char>::empty()));
    let pat = top_pat(k);
    assert(pat.len() >= 5) by {
        lemma_esc_plain(k);
    }
    assert(l2 =~= seq![seq!['{']] + (tl + (seq![seq!['}']] + seq![Seq::<char>::empty()])));
    let back = seq![seq!['}']] + seq![Seq::<char>::empty()];
    lemma_find_concat(seq![seq!['{']], tl + back, k);
    lemma_find_props(seq![seq!['{']], k);
    assert(!starts_with(seq!['{'], pat));
    lemma_find_concat(tl, back, k);
    lemma_find_props(tl, k);
    let ft = find_top_line(tl, k);
    assert(ft < tl.len());
    let f2 = find_top_line(l2, k);
    assert(f2 == 1 + ft);
    assert(0 < f2 < l2.len());
    assert(forall|j: int| 0 <= j < tl.len() ==> #[trigger] l2[1 + j] == tl[j]);
    if plan[i].blank {
        assert(l2[1 + (ft - 1)] == tl[ft - 1]);
        assert(l2[f2 - 1] == tl[ft - 1]);
        assert(is_blank(l2[f2 - 1]));
    } else {
        if i == 0 && ft == 0 {
            assert(l2[f2 - 1] =~= seq!['{']);
            assert(l2[f2 - 1][0] == '{');
            assert(!is_space(l2[f2 - 1][0]));
            assert(!is_blank(l2[f2 - 1]));
        } else {
            assert(ft >= 1 && !is_blank(tl[ft - 1]));
            assert(l2[1 + (ft - 1)] == tl[ft - 1]);
            assert(l2[f2 - 1] == tl[ft - 1]);
            assert(!is_blank(l2[f2 - 1]));
        }
    }
}

/// Strict formatting is idempotent. For a document whose keys (after
/// ordering) are pairwise distinct and free of characters that need
/// escaping, and a policy that keeps no in-field blank lines, running
/// the formatter on its own output — as a loader re-parses it — renders
/// that output again unchanged.
pub proof fn lemma_format_idempotent_plain_keys(
    es: Seq<(Seq<char>, JsonSpec)>,
    text: Seq<char>,
    topg: Seq<Seq<Seq<char>>>,
    subs: Seq<(Seq<char>, Seq<Seq<Seq<char>>>)>,
    lb_between: bool,
    lb_before: Seq<(Seq<char>, Seq<char>)>,
    lb_in: Seq<(Seq<char>, Seq<char>)>,
    ov_between: Option<bool>,
    ov_before: Seq<(Seq<char>, Seq<char>)>,
    ov_in: Seq<(Seq<char>, Seq<char>)>,
)
    requires
        forall|k: Seq<char>| mode_of(ov_in, lb_in, k) != Some("keep"@),
        forall|j: int|
            0 <= j < strict_plan(
                es,
                text,
                topg,
                subs,
                lb_between,
                lb_before,
                lb_in,
                ov_between,
                ov_before,
                ov_in,
            ).len() ==> plain_seq(
                #[trigger] strict_plan(
                    es,
                    text,
                    topg,
                    subs,
                    lb_between,
                    lb_before,
                    lb_in,
                    ov_between,
                    ov_before,
                    ov_in,
                )[j].key,
            ),
        forall|j1: int, j2: int|
            0 <= j1 < j2 < strict_plan(
                es,
                text,
                topg,
                subs,
                lb_between,
                lb_before,
                lb_in,
                ov_between,
                ov_before,
                ov_in,
            ).len() ==> #[trigger] strict_plan(
                es,
                text,
                topg,
                subs,
                lb_between,
                lb_before,
                lb_in,
                ov_between,
                ov_before,
                ov_in,
            )[j1].key != #[trigger] strict_plan(
                es,
                text,
                topg,
                subs,
                lb_between,
                lb_before,
                lb_in,
                ov_between,
                ov_before,
                ov_in,
            )[j2].key,
    ensures
        format_text(
            JsonSpec::Obj(
                plan_entries(
                    strict_plan(
                        es,
                        text,
                        topg,
                        subs,
                        lb_between,
                        lb_before,
                        lb_in,
                        ov_between,
                        ov_before,
                        ov_in,
                    ),
                ),
            ),
            document_text(
                strict_plan(
                    es,
                    text,
                    topg,
                    subs,
                    lb_between,
                    lb_before,
                    lb_in,
                    ov_between,
                    ov_before,
                    ov_in,
                ),
            ),
            topg,
            subs,
            lb_between,
            lb_before,
            lb_in,
            ov_between,
            ov_before,
            ov_in,
            true,
        ) == document_text(
            strict_plan(
                es,
                text,
                topg,
                subs,
                lb_between,
                lb_before,
                lb_in,
                ov_between,
                ov_before,
                ov_in,
            ),
        ),
{
    let p1 = strict_plan(
        es,
        text,
        topg,
        subs,
        lb_between,
        lb_before,
        lb_in,
        ov_between,
        ov_before,
        ov_in,
    );
    // Every planned entry carries no in-field blank lines.
    assert forall|j: int| 0 <= j < p1.len() implies #[trigger] p1[j].child_blanks == Seq::<
        bool,
    >::empty() by {
        let k = p1[j].key;
        assert(mode_of(ov_in, lb_in, k) != Some("keep"@));
    }
    // Scanning the first output reports exactly the planned blanks.
    assert forall|i: int| 0 <= i < p1.len() implies blank_before_top(
        lines_of(document_text(p1)),
        #[trigger] p1[i].key,
    ) == p1[i].blank by {
        lemma_scan_of_render(p1, i);
    }
    lemma_format_idempotent(
        es,
        text,
        topg,
        subs,
        lb_between,
        lb_before,
        lb_in,
        ov_between,
        ov_before,
        ov_in,
    );
}

} // verus!




