//! Compact JSON rendering.
//!
//! One-line rendering of a value, used for diagnostic messages and as the
//! building block of the pretty renderer: strings are quoted and escaped,
//! arrays and objects are comma separated without extra spaces.

use vstd::prelude::*;
use crate::json::{JsonSpec, JsonValue, deep_list, deep_entries, lemma_deep_list,
    lemma_deep_entries};
use crate::textutil::{dec_digits, dec_int, hex_pad, push_i64_dec, push_u64_dec, push_hex_pad,
    push_chars};

verus! {

/// The escape sequence for one character inside a JSON string literal.
pub open spec fn esc_char(c: char) -> Seq<char> {
    if c == '"' {
        seq!['\\', '"']
    } else if c == '\\' {
        seq!['\\', '\\']
    } else if c == '\n' {
        seq!['\\', 'n']
    } else if c == '\r' {
        seq!['\\', 'r']
    } else if c == '\t' {
        seq!['\\', 't']
    } else if (c as u32) < 32 {
        seq!['\\', 'u', '0', '0'] + hex_pad(c as u32 as int, 2)
    } else {
        seq![c]
    }
}

/// The body of a JSON string literal for the text `s`.
pub open spec fn esc(s: Seq<char>) -> Seq<char>
    decreases s.len(),
{
    if s.len() == 0 {
        Seq::empty()
    } else {
        esc_char(s[0]) + esc(s.drop_first())
    }
}

/// Appends the escaped form of `s`.
pub fn push_esc(out: &mut Vec<char>, s: &[char])
    ensures
        final(out)@ == old(out)@ + esc(s@),
{
    proof {
        assert(s@.skip(0) =~= s@);
    }
    let mut i: usize = 0;
    while i < s.len()
        invariant
            i <= s@.len(),
            out@ + esc(s@.skip(i as int)) == old(out)@ + esc(s@),
        decreases s@.len() - i,
    {
        let ghost pre = out@;
        proof {
            assert(s@.skip(i as int).len() > 0);
            assert(s@.skip(i as int)[0] == s@[i as int]);
            assert(s@.skip(i as int).drop_first() =~= s@.skip(i + 1));
        }
        let c = s[i];
        if c == '"' {
            out.push('\\');
            out.push('"');
        } else if c == '\\' {
            out.push('\\');
            out.push('\\');
        } else if c == '\n' {
            out.push('\\');
            out.push('n');
        } else if c == '\r' {
            out.push('\\');
            out.push('r');
        } else if c == '\t' {
            out.push('\\');
            out.push('t');
        } else if (c as u32) < 32 {
            out.push('\\');
            out.push('u');
            out.push('0');
            out.push('0');
            push_hex_pad(out, (c as u32) as u64, 2);
        } else {
            out.push(c);
        }
        proof {
            assert(out@ =~= pre + esc_char(s@[i as int]));
            assert(pre + esc_char(s@[i as int]) + esc(s@.skip(i + 1)) =~= pre + esc(
                s@.skip(i as int),
            ));
        }
        i = i + 1;
    }
    proof {
        assert(s@.skip(s@.len() as int) =~= Seq::<char>::empty());
        assert(out@ =~= old(out)@ + esc(s@));
    }
}

/// A run of `n` zero characters.
pub open spec fn zeros(n: int) -> Seq<char> {
    Seq::new(if n < 0 { 0nat } else { n as nat }, |i: int| '0')
}

/// Decimal rendering of the scaled number `m / 10^s`: the digits of the
/// magnitude, zero-padded to at least `s + 1` digits, with the decimal
/// point inserted `s` digits from the right, and a sign for negatives.
pub open spec fn dec_scaled(m: int, s: int) -> Seq<char> {
    let a = if m < 0 { -m } else { m };
    let ds = dec_digits(a);
    let padded = zeros(s + 1 - ds.len()) + ds;
    let cut = padded.len() - s;
    let body = padded.subrange(0, cut) + seq!['.'] + padded.subrange(cut, padded.len() as int);
    if m < 0 {
        seq!['-'] + body
    } else {
        body
    }
}

/// Appends the decimal rendering of `m / 10^s`.
#[verifier::rlimit(50)]
pub fn push_dec_scaled(out: &mut Vec<char>, m: i64, s: u32)
    ensures
        final(out)@ == old(out)@ + dec_scaled(m as int, s as int),
{
    let neg = m < 0;
    let a: u64 = if m >= 0 {
        m as u64
    } else {
        ((-(m + 1)) as u64) + 1
    };
    proof {
        assert(a as int == if m < 0 { -(m as int) } else { m as int });
    }
    let mut digits: Vec<char> = Vec::new();
    push_u64_dec(&mut digits, a);
    // Zero-pad on the left so a decimal point always has a digit before it.
    let mut padded: Vec<char> = Vec::new();
    let mut need: usize = 0;
    let dl = digits.len();
    proof {
        assert(digits@.len() >= 1);
    }
    let s_us = s as usize;
    if dl <= s_us {
        need = (s_us - dl) + 1;
    }
    let mut z: usize = 0;
    while z < need
        invariant
            z <= need,
            padded@ =~= zeros(z as int),
        decreases need - z,
    {
        padded.push('0');
        proof {
            assert(padded@ =~= zeros(z + 1 as int));
        }
        z = z + 1;
    }
    let mut d: usize = 0;
    while d < digits.len()
        invariant
            d <= digits@.len(),
            padded@ =~= zeros(need as int) + digits@.subrange(0, d as int),
        decreases digits@.len() - d,
    {
        padded.push(digits[d]);
        proof {
            assert(padded@ =~= zeros(need as int) + digits@.subrange(0, d + 1 as int));
        }
        d = d + 1;
    }
    proof {
        assert(digits@.subrange(0, digits@.len() as int) =~= digits@);
        assert(zeros(need as int) =~= zeros(s as int + 1 - digits@.len()));
    }
    let cut = padded.len() - s_us;
    if neg {
        out.push('-');
    }
    let mut i: usize = 0;
    let ghost mid = out@;
    while i < cut
        invariant
            cut <= padded@.len(),
            i <= cut,
            out@ =~= mid + padded@.subrange(0, i as int),
        decreases cut - i,
    {
        out.push(padded[i]);
        proof {
            assert(out@ =~= mid + padded@.subrange(0, i + 1 as int));
        }
        i = i + 1;
    }
    out.push('.');
    let ghost mid2 = out@;
    let mut j: usize = cut;
    while j < padded.len()
        invariant
            cut <= padded@.len(),
            cut <= j <= padded@.len(),
            out@ =~= mid2 + padded@.subrange(cut as int, j as int),
        decreases padded@.len() - j,
    {
        out.push(padded[j]);
        proof {
            assert(out@ =~= mid2 + padded@.subrange(cut as int, j + 1 as int));
        }
        j = j + 1;
    }
    proof {
        assert(out@ =~= old(out)@ + dec_scaled(m as int, s as int));
    }
}

/// Compact one-line rendering of a value.
pub open spec fn compact(v: JsonSpec) -> Seq<char>
    decreases v,
{
    match v {
        JsonSpec::Null => seq!['n', 'u', 'l', 'l'],
        JsonSpec::Bool(b) => if b {
            seq!['t', 'r', 'u', 'e']
        } else {
            seq!['f', 'a', 'l', 's', 'e']
        },
        JsonSpec::Int(i) => dec_int(i),
        JsonSpec::Dec(m, s) => dec_scaled(m, s as int),
        JsonSpec::Text(t) => seq!['"'] + esc(t) + seq!['"'],
        JsonSpec::Arr(es) => seq!['['] + compact_list(v->Arr_0) + seq![']'],
        JsonSpec::Obj(es) => seq!['{'] + compact_entries(v->Obj_0) + seq!['}'],
    }
}

/// Comma-separated compact renderings.
pub open spec fn compact_list(es: Seq<JsonSpec>) -> Seq<char>
    decreases es,
{
    if es.len() == 0 {
        Seq::empty()
    } else if es.len() == 1 {
        compact(es[0])
    } else {
        compact(es[0]) + seq![','] + compact_list(es.drop_first())
    }
}

/// Comma-separated compact `"key":value` renderings.
pub open spec fn compact_entries(es: Seq<(Seq<char>, JsonSpec)>) -> Seq<char>
    decreases es,
{
    if es.len() == 0 {
        Seq::empty()
    } else {
        let head = seq!['"'] + esc(es[0].0) + seq!['"', ':'] + compact(es[0].1);
        if es.len() == 1 {
            head
        } else {
            head + seq![','] + compact_entries(es.drop_first())
        }
    }
}

/// Appends the compact rendering of `v`.
pub fn push_compact(out: &mut Vec<char>, v: &JsonValue)
    ensures
        final(out)@ == old(out)@ + compact(v.deep()),
    decreases *v,
{
    match v {
        JsonValue::Null => {
            push_chars(out, "null");
            proof {
                reveal_strlit("null");
                assert(out@ =~= old(out)@ + compact(v.deep()));
            }
        },
        JsonValue::Bool(b) => {
            if *b {
                push_chars(out, "true");
                proof {
                    reveal_strlit("true");
                    assert(out@ =~= old(out)@ + compact(v.deep()));
                }
            } else {
                push_chars(out, "false");
                proof {
                    reveal_strlit("false");
                    assert(out@ =~= old(out)@ + compact(v.deep()));
                }
            }
        },
        JsonValue::Int(i) => {
            push_i64_dec(out, *i);
        },
        JsonValue::Dec(m, s) => {
            push_dec_scaled(out, *m, *s);
        },
        JsonValue::Text(t) => {
            out.push('"');
            let cs = crate::textutil::chars_of(t.as_str());
            push_esc(out, cs.as_slice());
            out.push('"');
            proof {
                assert(out@ =~= old(out)@ + compact(v.deep()));
            }
        },
        JsonValue::Arr(a) => {
            out.push('[');
            let ghost mid = out@;
            let mut i: usize = 0;
            proof {
                lemma_deep_list(a@);
                assert(deep_list(a@).skip(0) =~= deep_list(a@));
            }
            while i < a.len()
                invariant
                    i <= a@.len(),
                    v == JsonValue::Arr(*a),
                    deep_list(a@).len() == a@.len(),
                    forall|j: int| 0 <= j < a@.len() ==> deep_list(a@)[j] == a@[j].deep(),
                    mid == old(out)@ + seq!['['],
                    out@ + compact_list(deep_list(a@).skip(i as int)) == mid + compact_list(
                        deep_list(a@),
                    ),
                decreases a@.len() - i,
            {
                let ghost pre = out@;
                let ghost rest = deep_list(a@).skip(i as int);
                proof {
                    assert(decreases_to!(*v => a@[i as int])) by {
                        assert(decreases_to!(*v => v->Arr_0));
                    }
                    assert(rest.len() == a@.len() - i);
                    assert(rest[0] == a@[i as int].deep());
                    assert(rest.drop_first() =~= deep_list(a@).skip(i + 1));
                }
                push_compact(out, &a[i]);
                if i + 1 < a.len() {
                    out.push(',');
                    proof {
                        assert(rest.len() > 1);
                        assert(compact_list(rest) =~= compact(rest[0]) + seq![','] + compact_list(
                            rest.drop_first(),
                        ));
                        assert(out@ =~= pre + compact(rest[0]) + seq![',']);
                        assert(out@ + compact_list(deep_list(a@).skip(i + 1)) =~= pre
                            + compact_list(rest));
                    }
                } else {
                    proof {
                        assert(rest.len() == 1);
                        assert(compact_list(rest) == compact(rest[0]));
                        assert(deep_list(a@).skip(i + 1) =~= Seq::<JsonSpec>::empty());
                        assert(out@ + compact_list(deep_list(a@).skip(i + 1)) =~= pre
                            + compact_list(rest));
                    }
                }
                i = i + 1;
            }
            out.push(']');
            proof {
                if a@.len() == 0 {
                    assert(compact_list(deep_list(a@)) =~= Seq::<char>::empty());
                } else {
                    assert(deep_list(a@).skip(a@.len() as int) =~= Seq::<JsonSpec>::empty());
                }
                assert(out@ =~= old(out)@ + compact(v.deep()));
            }
        },
        JsonValue::Obj(o) => {
            out.push('{');
            let ghost mid = out@;
            let mut i: usize = 0;
            proof {
                lemma_deep_entries(o@);
                assert(deep_entries(o@).skip(0) =~= deep_entries(o@));
            }
            while i < o.len()
                invariant
                    i <= o@.len(),
                    v == JsonValue::Obj(*o),
                    deep_entries(o@).len() == o@.len(),
                    forall|j: int|
                        0 <= j < o@.len() ==> deep_entries(o@)[j] == (o@[j].0@, o@[j].1.deep()),
                    mid == old(out)@ + seq!['{'],
                    out@ + compact_entries(deep_entries(o@).skip(i as int)) == mid
                        + compact_entries(deep_entries(o@)),
                decreases o@.len() - i,
            {
                let ghost pre = out@;
                let ghost rest = deep_entries(o@).skip(i as int);
                proof {
                    assert(decreases_to!(*v => o@[i as int].1)) by {
                        assert(decreases_to!(*v => v->Obj_0));
                    }
                    assert(rest.len() == o@.len() - i);
                    assert(rest[0] == (o@[i as int].0@, o@[i as int].1.deep()));
                    assert(rest.drop_first() =~= deep_entries(o@).skip(i + 1));
                }
                out.push('"');
                let ks = crate::textutil::chars_of(o[i].0.as_str());
                push_esc(out, ks.as_slice());
                out.push('"');
                out.push(':');
                push_compact(out, &o[i].1);
                let ghost head = seq!['"'] + esc(rest[0].0) + seq!['"', ':'] + compact(rest[0].1);
                proof {
                    assert(out@ =~= pre + head);
                }
                if i + 1 < o.len() {
                    out.push(',');
                    proof {
                        assert(rest.len() > 1);
                        assert(compact_entries(rest) =~= head + seq![','] + compact_entries(
                            rest.drop_first(),
                        ));
                        assert(out@ + compact_entries(deep_entries(o@).skip(i + 1)) =~= pre
                            + compact_entries(rest));
                    }
                } else {
                    proof {
                        assert(rest.len() == 1);
                        assert(compact_entries(rest) == head);
                        assert(deep_entries(o@).skip(i + 1) =~= Seq::<(Seq<char>, JsonSpec)>::empty());
                        assert(out@ + compact_entries(deep_entries(o@).skip(i + 1)) =~= pre
                            + compact_entries(rest));
                    }
                }
                i = i + 1;
            }
            out.push('}');
            proof {
                if o@.len() == 0 {
                    assert(compact_entries(deep_entries(o@)) =~= Seq::<char>::empty());
                } else {
                    assert(deep_entries(o@).skip(o@.len() as int) =~= Seq::<(
                        Seq<char>,
                        JsonSpec,
                    )>::empty());
                }
                assert(out@ =~= old(out)@ + compact(v.deep()));
            }
        },
    }
}

} // verus!
