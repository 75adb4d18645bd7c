//! Policy-driven validation checks.
//!
//! `run_checks` evaluates declarative rules against a document and
//! produces `Issue` diagnostics, in rule order and, within a multi-field
//! rule, in field order. Messages come from a per-rule template (or a
//! built-in default) with `{{...}}` placeholders substituted by plain
//! text replacement; paths are always reported in `$.a.b` form.

use vstd::prelude::*;
use vstd::string::*;
use crate::json::{JsonSpec, JsonValue};
use crate::path::{get_at, path_segs, get_json_path};
use crate::render::{compact, push_compact};
use crate::textutil::{chars_of, string_from_chars, push_chars, dec_digits, push_usize_dec,
    str_eq_str};

verus! {

/// Whether the pattern text compiles as a regular expression.
pub uninterp spec fn regex_ok(p: Seq<char>) -> bool;

/// The verdict of matching a compiled pattern against a text.
pub uninterp spec fn regex_match(p: Seq<char>, t: Seq<char>) -> bool;

/// Relies on `regex::Regex::new` and `regex::Regex::is_match`: both are
/// functions of the pattern and text alone. A pattern that does not
/// compile acts as a matcher that never matches.
#[verifier::external_body]
fn regex_is_match(pattern: &str, text: &str) -> (r: bool)
    ensures
        r == (regex_ok(pattern@) && regex_match(pattern@, text@)),
{
    match regex::Regex::new(pattern) {
        Ok(re) => re.is_match(text),
        Err(_) => false,
    }
}

/// One declarative check of a policy.
pub enum Check {
    Required { fields: Vec<String>, message: Option<String>, level: Option<String> },
    TypeOf { fields: Vec<(String, String)>, message: Option<String>, level: Option<String> },
    Const { field: String, value: JsonValue, message: Option<String>, level: Option<String> },
    Pattern { field: String, regex: String, message: Option<String>, level: Option<String> },
    Enum { field: String, values: Vec<JsonValue>, message: Option<String>, level: Option<String> },
    MinLength { field: String, min: usize, message: Option<String>, level: Option<String> },
    MaxLength { field: String, max: usize, message: Option<String>, level: Option<String> },
}

/// Mathematical form of a check.
pub enum CheckSpec {
    Required { fields: Seq<Seq<char>>, message: Option<Seq<char>>, level: Option<Seq<char>> },
    TypeOf {
        fields: Seq<(Seq<char>, Seq<char>)>,
        message: Option<Seq<char>>,
        level: Option<Seq<char>>,
    },
    Const { field: Seq<char>, value: JsonSpec, message: Option<Seq<char>>, level: Option<Seq<char>> },
    Pattern {
        field: Seq<char>,
        regex: Seq<char>,
        message: Option<Seq<char>>,
        level: Option<Seq<char>>,
    },
    Enum {
        field: Seq<char>,
        values: Seq<JsonSpec>,
        message: Option<Seq<char>>,
        level: Option<Seq<char>>,
    },
    MinLength { field: Seq<char>, min: int, message: Option<Seq<char>>, level: Option<Seq<char>> },
    MaxLength { field: Seq<char>, max: int, message: Option<Seq<char>>, level: Option<Seq<char>> },
}

impl DeepView for Check {
    type V = CheckSpec;

    open spec fn deep_view(&self) -> CheckSpec {
        match *self {
            Check::Required { fields, message, level } => CheckSpec::Required {
                fields: fields.deep_view(),
                message: message.deep_view(),
                level: level.deep_view(),
            },
            Check::TypeOf { fields, message, level } => CheckSpec::TypeOf {
                fields: fields.deep_view(),
                message: message.deep_view(),
                level: level.deep_view(),
            },
            Check::Const { field, value, message, level } => CheckSpec::Const {
                field: field@,
                value: value.deep(),
                message: message.deep_view(),
                level: level.deep_view(),
            },
            Check::Pattern { field, regex, message, level } => CheckSpec::Pattern {
                field: field@,
                regex: regex@,
                message: message.deep_view(),
                level: level.deep_view(),
            },
            Check::Enum { field, values, message, level } => CheckSpec::Enum {
                field: field@,
                values: values.deep_view(),
                message: message.deep_view(),
                level: level.deep_view(),
            },
            Check::MinLength { field, min, message, level } => CheckSpec::MinLength {
                field: field@,
                min: min as int,
                message: message.deep_view(),
                level: level.deep_view(),
            },
            Check::MaxLength { field, max, message, level } => CheckSpec::MaxLength {
                field: field@,
                max: max as int,
                message: message.deep_view(),
                level: level.deep_view(),
            },
        }
    }
}

/// One diagnostic produced by a check against one document.
#[derive(Debug, Clone)]
pub struct Issue {
    pub file: String,
    pub rule: String,
    pub severity: String,
    pub path: String,
    pub message: String,
}

/// Mathematical form of a diagnostic.
pub struct IssueSpec {
    pub file: Seq<char>,
    pub rule: Seq<char>,
    pub severity: Seq<char>,
    pub path: Seq<char>,
    pub message: Seq<char>,
}

impl DeepView for Issue {
    type V = IssueSpec;

    open spec fn deep_view(&self) -> IssueSpec {
        IssueSpec {
            file: self.file@,
            rule: self.rule@,
            severity: self.severity@,
            path: self.path@,
            message: self.message@,
        }
    }
}

/// Left-to-right replacement of every occurrence of `pat` in `s` by
/// `rep`; the replacement text itself is not rescanned. An empty pattern
/// replaces nothing.
pub open spec fn replace_spec(s: Seq<char>, pat: Seq<char>, rep: Seq<char>) -> Seq<char>
    decreases s.len(),
{
    if pat.len() == 0 || s.len() < pat.len() {
        s
    } else if s.subrange(0, pat.len() as int) == pat {
        rep + replace_spec(s.skip(pat.len() as int), pat, rep)
    } else {
        seq![s[0]] + replace_spec(s.drop_first(), pat, rep)
    }
}

/// Whether `pat` occurs in `s` starting at `i`.
fn match_at(s: &Vec<char>, i: usize, pat: &Vec<char>) -> (r: bool)
    requires
        i + pat@.len() <= s@.len(),
    ensures
        r == (s@.subrange(i as int, i + pat@.len()) == pat@),
{
    let n = s.len();
    let mut j: usize = 0;
    while j < pat.len()
        invariant
            n == s@.len(),
            i + pat@.len() <= s@.len(),
            j <= pat@.len(),
            forall|l: int| 0 <= l < j ==> s@[i + l] == pat@[l],
        decreases pat@.len() - j,
    {
        if s[i + j] != pat[j] {
            proof {
                assert(s@.subrange(i as int, i + pat@.len())[j as int] != pat@[j as int]);
            }
            return false;
        }
        j = j + 1;
    }
    proof {
        assert(s@.subrange(i as int, i + pat@.len()) =~= pat@);
    }
    true
}

/// Replaces every occurrence of `pat` in `s` by `rep`, left to right.
pub fn replace_chars(s: &Vec<char>, pat: &Vec<char>, rep: &Vec<char>) -> (out: Vec<char>)
    ensures
        out@ == replace_spec(s@, pat@, rep@),
{
    if pat.len() == 0 {
        let mut out: Vec<char> = Vec::new();
        let mut i: usize = 0;
        while i < s.len()
            invariant
                i <= s@.len(),
                out@ == s@.subrange(0, i as int),
            decreases s@.len() - i,
        {
            out.push(s[i]);
            proof {
                assert(out@ =~= s@.subrange(0, i + 1 as int));
            }
            i = i + 1;
        }
        proof {
            assert(out@ =~= s@);
        }
        return out;
    }
    let mut out: Vec<char> = Vec::new();
    let mut i: usize = 0;
    proof {
        assert(s@.skip(0) =~= s@);
    }
    while i < s.len()
        invariant
            pat@.len() > 0,
            i <= s@.len(),
            out@ + replace_spec(s@.skip(i as int), pat@, rep@) == replace_spec(s@, pat@, rep@),
        decreases s@.len() - i,
    {
        let ghost rest = s@.skip(i as int);
        let ghost pre = out@;
        if pat.len() <= s.len() - i && match_at(s, i, pat) {
            proof {
                assert(rest.subrange(0, pat@.len() as int) =~= s@.subrange(
                    i as int,
                    i + pat@.len(),
                ));
                assert(rest.skip(pat@.len() as int) =~= s@.skip(i + pat@.len()));
                assert(replace_spec(rest, pat@, rep@) == rep@ + replace_spec(
                    s@.skip(i + pat@.len()),
                    pat@,
                    rep@,
                ));
            }
            let mut k: usize = 0;
            while k < rep.len()
                invariant
                    k <= rep@.len(),
                    out@ == pre + rep@.subrange(0, k as int),
                decreases rep@.len() - k,
            {
                out.push(rep[k]);
                proof {
                    assert(out@ =~= pre + rep@.subrange(0, k + 1 as int));
                }
                k = k + 1;
            }
            proof {
                assert(rep@.subrange(0, rep@.len() as int) =~= rep@);
            }
            i = i + pat.len();
        } else {
            proof {
                if rest.len() >= pat@.len() {
                    if i + pat@.len() <= s@.len() {
                        assert(rest.subrange(0, pat@.len() as int) =~= s@.subrange(
                            i as int,
                            i + pat@.len(),
                        ));
                        assert(rest.subrange(0, pat@.len() as int) != pat@);
                    }
                }
                assert(rest.drop_first() =~= s@.skip(i + 1));
                assert(rest[0] == s@[i as int]);
            }
            out.push(s[i]);
            proof {
                assert(out@ =~= pre + seq![s@[i as int]]);
                assert(out@ + replace_spec(s@.skip(i + 1), pat@, rep@) =~= pre + replace_spec(
                    rest,
                    pat@,
                    rep@,
                ));
            }
            i = i + 1;
        }
    }
    proof {
        assert(s@.skip(s@.len() as int) =~= Seq::<char>::empty());
        assert(out@ =~= replace_spec(s@, pat@, rep@));
    }
    out
}

/// All leading `c` characters removed.
pub open spec fn strip_lead(s: Seq<char>, c: char) -> Seq<char>
    decreases s.len(),
{
    if s.len() > 0 && s[0] == c {
        strip_lead(s.drop_first(), c)
    } else {
        s
    }
}

proof fn lemma_strip_lead_range(s: Seq<char>, c: char, lo: int)
    requires
        0 <= lo <= s.len(),
        forall|j: int| 0 <= j < lo ==> s[j] == c,
        lo < s.len() ==> s[lo] != c,
    ensures
        strip_lead(s, c) == s.subrange(lo, s.len() as int),
    decreases lo,
{
    if lo == 0 {
        if s.len() > 0 && s[0] == c {
            assert(false);
        }
        assert(s.subrange(0, s.len() as int) =~= s);
    } else {
        lemma_strip_lead_range(s.drop_first(), c, lo - 1);
        assert(s.drop_first().subrange(lo - 1, s.drop_first().len() as int) =~= s.subrange(
            lo,
            s.len() as int,
        ));
    }
}

/// The field text with leading `$` and `.` characters removed.
pub open spec fn norm_body(f: Seq<char>) -> Seq<char> {
    strip_lead(strip_lead(f, '$'), '.')
}

/// The `$.a.b` display form of a field path.
pub open spec fn dollar_path(f: Seq<char>) -> Seq<char> {
    seq!['$', '.'] + norm_body(f)
}

/// The characters of the normalised field body.
fn norm_chars(f: &str) -> (v: Vec<char>)
    ensures
        v@ == norm_body(f@),
{
    let cs = chars_of(f);
    let mut a: usize = 0;
    while a < cs.len() && cs[a] == '$'
        invariant
            a <= cs@.len(),
            cs@ == f@,
            forall|j: int| 0 <= j < a ==> cs@[j] == '$',
        decreases cs@.len() - a,
    {
        a = a + 1;
    }
    proof {
        lemma_strip_lead_range(cs@, '$', a as int);
    }
    let ghost s1 = strip_lead(f@, '$');
    let mut b: usize = a;
    while b < cs.len() && cs[b] == '.'
        invariant
            a <= b <= cs@.len(),
            cs@ == f@,
            s1 == cs@.subrange(a as int, cs@.len() as int),
            forall|j: int| a <= j < b ==> cs@[j] == '.',
        decreases cs@.len() - b,
    {
        b = b + 1;
    }
    proof {
        lemma_strip_lead_range(s1, '.', b - a);
        assert(s1.subrange(b - a, s1.len() as int) =~= cs@.subrange(b as int, cs@.len() as int));
    }
    let mut v: Vec<char> = Vec::new();
    let mut i: usize = b;
    while i < cs.len()
        invariant
            b <= i <= cs@.len(),
            cs@ == f@,
            v@ == cs@.subrange(b as int, i as int),
        decreases cs@.len() - i,
    {
        v.push(cs[i]);
        proof {
            assert(v@ =~= cs@.subrange(b as int, i + 1 as int));
        }
        i = i + 1;
    }
    proof {
        assert(v@ =~= cs@.subrange(b as int, cs@.len() as int));
    }
    v
}

/// The `$.a.b` display form of a field path, as a string.
fn dollar_path_string(f: &str) -> (s: String)
    ensures
        s@ == dollar_path(f@),
{
    let mut v: Vec<char> = Vec::new();
    v.push('$');
    v.push('.');
    let n = norm_chars(f);
    let mut i: usize = 0;
    while i < n.len()
        invariant
            i <= n@.len(),
            n@ == norm_body(f@),
            v@ == seq!['$', '.'] + n@.subrange(0, i as int),
        decreases n@.len() - i,
    {
        v.push(n[i]);
        proof {
            assert(v@ =~= seq!['$', '.'] + n@.subrange(0, i + 1 as int));
        }
        i = i + 1;
    }
    proof {
        assert(v@ =~= dollar_path(f@));
    }
    string_from_chars(&v)
}

/// The severity a rule reports: its own level, or `error`.
pub open spec fn sev_of(level: Option<Seq<char>>) -> Seq<char> {
    match level {
        Some(l) => l,
        None => "error"@,
    }
}

/// The message template a rule uses: its own, or the given default.
pub open spec fn tmpl_of(message: Option<Seq<char>>, dflt: Seq<char>) -> Seq<char> {
    match message {
        Some(m) => m,
        None => dflt,
    }
}

fn sev_string(level: &Option<String>) -> (s: String)
    ensures
        s@ == sev_of(level.deep_view()),
{
    match level {
        Some(l) => l.clone(),
        None => String::from_str("error"),
    }
}

fn tmpl_chars(message: &Option<String>, dflt: &str) -> (v: Vec<char>)
    ensures
        v@ == tmpl_of(message.deep_view(), dflt@),
{
    match message {
        Some(m) => chars_of(m.as_str()),
        None => chars_of(dflt),
    }
}

/// Whether a value has the named primitive kind. `number` accepts both
/// integers and decimals; `integer` only integers.
pub open spec fn is_kind(v: JsonSpec, kind: Seq<char>) -> bool {
    if kind == "string"@ {
        v is Text
    } else if kind == "number"@ {
        v is Int || v is Dec
    } else if kind == "integer"@ {
        v is Int
    } else if kind == "boolean"@ {
        v is Bool
    } else if kind == "array"@ {
        v is Arr
    } else if kind == "object"@ {
        v is Obj
    } else if kind == "null"@ {
        v is Null
    } else {
        false
    }
}

/// The kind name of a value.
pub open spec fn kind_of(v: JsonSpec) -> Seq<char> {
    match v {
        JsonSpec::Text(t) => "string"@,
        JsonSpec::Bool(b) => "boolean"@,
        JsonSpec::Arr(a) => "array"@,
        JsonSpec::Obj(o) => "object"@,
        JsonSpec::Null => "null"@,
        JsonSpec::Int(i) => "integer"@,
        JsonSpec::Dec(m, s) => "number"@,
    }
}

/// Decides whether `v` has the declared kind.
pub fn is_type(v: &JsonValue, kind: &str) -> (r: bool)
    ensures
        r == is_kind(v.deep(), kind@),
{
    if str_eq_str(kind, "string") {
        matches!(v, JsonValue::Text(_))
    } else if str_eq_str(kind, "number") {
        matches!(v, JsonValue::Int(_) | JsonValue::Dec(_, _))
    } else if str_eq_str(kind, "integer") {
        matches!(v, JsonValue::Int(_))
    } else if str_eq_str(kind, "boolean") {
        matches!(v, JsonValue::Bool(_))
    } else if str_eq_str(kind, "array") {
        matches!(v, JsonValue::Arr(_))
    } else if str_eq_str(kind, "object") {
        matches!(v, JsonValue::Obj(_))
    } else if str_eq_str(kind, "null") {
        matches!(v, JsonValue::Null)
    } else {
        false
    }
}

/// Names the kind of `v`.
pub fn json_kind(v: &JsonValue) -> (r: &'static str)
    ensures
        r@ == kind_of(v.deep()),
{
    match v {
        JsonValue::Text(_) => "string",
        JsonValue::Bool(_) => "boolean",
        JsonValue::Arr(_) => "array",
        JsonValue::Obj(_) => "object",
        JsonValue::Null => "null",
        JsonValue::Int(_) => "integer",
        JsonValue::Dec(_, _) => "number",
    }
}

/// The diagnostic one `Required` rule yields for the fields from `k` on.
pub open spec fn req_issues(
    fields: Seq<Seq<char>>,
    doc: JsonSpec,
    tmpl: Seq<char>,
    sev: Seq<char>,
    file: Seq<char>,
    rule: Seq<char>,
) -> Seq<IssueSpec>
    decreases fields.len(),
{
    if fields.len() == 0 {
        Seq::empty()
    } else {
        let f = fields[0];
        let head: Seq<IssueSpec> = if get_at(doc, path_segs(f)) is None {
            seq![
                IssueSpec {
                    file: file,
                    rule: rule,
                    severity: sev,
                    path: dollar_path(f),
                    message: replace_spec(
                        replace_spec(tmpl, "{{field}}"@, norm_body(f)),
                        "{{path}}"@,
                        dollar_path(f),
                    ),
                },
            ]
        } else {
            Seq::empty()
        };
        head + req_issues(fields.drop_first(), doc, tmpl, sev, file, rule)
    }
}

/// The diagnostics one `TypeOf` rule yields.
pub open spec fn type_issues(
    fields: Seq<(Seq<char>, Seq<char>)>,
    doc: JsonSpec,
    tmpl: Seq<char>,
    sev: Seq<char>,
    file: Seq<char>,
    rule: Seq<char>,
) -> Seq<IssueSpec>
    decreases fields.len(),
{
    if fields.len() == 0 {
        Seq::empty()
    } else {
        let f = fields[0].0;
        let kind = fields[0].1;
        let head: Seq<IssueSpec> = match get_at(doc, path_segs(f)) {
            Some(v) => if !is_kind(v, kind) {
                seq![
                    IssueSpec {
                        file: file,
                        rule: rule,
                        severity: sev,
                        path: dollar_path(f),
                        message: replace_spec(
                            replace_spec(
                                replace_spec(tmpl, "{{kind}}"@, kind),
                                "{{path}}"@,
                                dollar_path(f),
                            ),
                            "{{actual}}"@,
                            kind_of(v),
                        ),
                    },
                ]
            } else {
                Seq::empty()
            },
            None => Seq::empty(),
        };
        head + type_issues(fields.drop_first(), doc, tmpl, sev, file, rule)
    }
}

/// The diagnostics one check yields against one document.
pub open spec fn check_issues(
    c: CheckSpec,
    doc: JsonSpec,
    file: Seq<char>,
    rule: Seq<char>,
) -> Seq<IssueSpec> {
    match c {
        CheckSpec::Required { fields, message, level } => req_issues(
            fields,
            doc,
            tmpl_of(message, "Field '{{field}}' is required at $.{{field}}"@),
            sev_of(level),
            file,
            rule,
        ),
        CheckSpec::TypeOf { fields, message, level } => type_issues(
            fields,
            doc,
            tmpl_of(message, "Expected {{kind}} at $.{{path}}"@),
            sev_of(level),
            file,
            rule,
        ),
        CheckSpec::Const { field, value, message, level } => {
            let got = get_at(doc, path_segs(field));
            let gv = match got {
                Some(v) => v,
                None => JsonSpec::Null,
            };
            if gv != value {
                seq![
                    IssueSpec {
                        file: file,
                        rule: rule,
                        severity: sev_of(level),
                        path: dollar_path(field),
                        message: replace_spec(
                            replace_spec(
                                replace_spec(
                                    tmpl_of(message, "Field must equal expected value"@),
                                    "{{expected}}"@,
                                    compact(value),
                                ),
                                "{{actual}}"@,
                                compact(gv),
                            ),
                            "{{path}}"@,
                            dollar_path(field),
                        ),
                    },
                ]
            } else {
                Seq::empty()
            }
        },
        CheckSpec::Pattern { field, regex, message, level } => {
            match get_at(doc, path_segs(field)) {
                Some(JsonSpec::Text(t)) => if !(regex_ok(regex) && regex_match(regex, t)) {
                    seq![
                        IssueSpec {
                            file: file,
                            rule: rule,
                            severity: sev_of(level),
                            path: dollar_path(field),
                            message: replace_spec(
                                replace_spec(
                                    replace_spec(
                                        tmpl_of(message, "Pattern mismatch"@),
                                        "{{pattern}}"@,
                                        regex,
                                    ),
                                    "{{actual}}"@,
                                    t,
                                ),
                                "{{path}}"@,
                                dollar_path(field),
                            ),
                        },
                    ]
                } else {
                    Seq::empty()
                },
                _ => Seq::empty(),
            }
        },
        CheckSpec::Enum { field, values, message, level } => {
            match get_at(doc, path_segs(field)) {
                Some(v) => if !(exists|j: int| 0 <= j < values.len() && values[j] == v) {
                    seq![
                        IssueSpec {
                            file: file,
                            rule: rule,
                            severity: sev_of(level),
                            path: dollar_path(field),
                            message: replace_spec(
                                replace_spec(
                                    replace_spec(
                                        tmpl_of(message, "Value not in allowed set"@),
                                        "{{expected}}"@,
                                        compact(JsonSpec::Arr(values)),
                                    ),
                                    "{{actual}}"@,
                                    compact(v),
                                ),
                                "{{path}}"@,
                                dollar_path(field),
                            ),
                        },
                    ]
                } else {
                    Seq::empty()
                },
                None => Seq::empty(),
            }
        },
        CheckSpec::MinLength { field, min, message, level } => {
            match get_at(doc, path_segs(field)) {
                Some(JsonSpec::Text(t)) => if t.len() < min {
                    seq![
                        IssueSpec {
                            file: file,
                            rule: rule,
                            severity: sev_of(level),
                            path: dollar_path(field),
                            message: replace_spec(
                                replace_spec(
                                    replace_spec(
                                        tmpl_of(message, "String shorter than minimum"@),
                                        "{{expected}}"@,
                                        dec_digits(min),
                                    ),
                                    "{{actual}}"@,
                                    dec_digits(t.len() as int),
                                ),
                                "{{path}}"@,
                                dollar_path(field),
                            ),
                        },
                    ]
                } else {
                    Seq::empty()
                },
                _ => Seq::empty(),
            }
        },
        CheckSpec::MaxLength { field, max, message, level } => {
            match get_at(doc, path_segs(field)) {
                Some(JsonSpec::Text(t)) => if t.len() > max {
                    seq![
                        IssueSpec {
                            file: file,
                            rule: rule,
                            severity: sev_of(level),
                            path: dollar_path(field),
                            message: replace_spec(
                                replace_spec(
                                    replace_spec(
                                        tmpl_of(message, "String longer than maximum"@),
                                        "{{expected}}"@,
                                        dec_digits(max),
                                    ),
                                    "{{actual}}"@,
                                    dec_digits(t.len() as int),
                                ),
                                "{{path}}"@,
                                dollar_path(field),
                            ),
                        },
                    ]
                } else {
                    Seq::empty()
                },
                _ => Seq::empty(),
            }
        },
    }
}

/// The diagnostics a list of checks yields, in rule order.
pub open spec fn run_checks_spec(
    cs: Seq<CheckSpec>,
    doc: JsonSpec,
    file: Seq<char>,
    rule: Seq<char>,
) -> Seq<IssueSpec>
    decreases cs.len(),
{
    if cs.len() == 0 {
        Seq::empty()
    } else {
        check_issues(cs[0], doc, file, rule) + run_checks_spec(cs.drop_first(), doc, file, rule)
    }
}

/// Builds one issue from its final parts.
fn mk_issue(file: &str, rule: &str, sev: &String, path: String, msg: Vec<char>) -> (r: Issue)
    ensures
        r.deep_view() == (IssueSpec {
            file: file@,
            rule: rule@,
            severity: sev@,
            path: path@,
            message: msg@,
        }),
{
    Issue {
        file: String::from_str(file),
        rule: String::from_str(rule),
        severity: sev.clone(),
        path,
        message: string_from_chars(&msg),
    }
}

/// Substitutes one placeholder throughout a template.
fn subst(tmpl: &Vec<char>, pat: &str, rep: &Vec<char>) -> (out: Vec<char>)
    ensures
        out@ == replace_spec(tmpl@, pat@, rep@),
{
    let p = chars_of(pat);
    replace_chars(tmpl, &p, rep)
}

/// Evaluates every check against the document, producing issues in rule
/// order and, within a rule, in declared field order.
pub fn run_checks(checks: &Vec<Check>, json: &JsonValue, file: &str, rule_id: &str) -> (issues:
    Vec<Issue>)
    ensures
        issues.deep_view() == run_checks_spec(checks.deep_view(), json.deep(), file@, rule_id@),
{
    let ghost doc = json.deep();
    let ghost cs = checks.deep_view();
    let mut issues: Vec<Issue> = Vec::new();
    let mut i: usize = 0;
    proof {
        assert(cs.skip(0) =~= cs);
        assert(issues.deep_view() =~= Seq::<IssueSpec>::empty());
    }
    while i < checks.len()
        invariant
            i <= checks@.len(),
            cs == checks.deep_view(),
            doc == json.deep(),
            cs.len() == checks@.len(),
            issues.deep_view() + run_checks_spec(cs.skip(i as int), doc, file@, rule_id@)
                == run_checks_spec(cs, doc, file@, rule_id@),
        decreases checks@.len() - i,
    {
        let ghost rest = cs.skip(i as int);
        let ghost pre = issues.deep_view();
        proof {
            assert(rest[0] == checks@[i as int].deep_view());
            assert(rest.drop_first() =~= cs.skip(i + 1));
        }
        let one = eval_check(&checks[i], json, file, rule_id);
        proof {
            assert(one.deep_view() == check_issues(rest[0], doc, file@, rule_id@));
        }
        let mut k: usize = 0;
        while k < one.len()
            invariant
                k <= one@.len(),
                issues.deep_view() =~= pre + one.deep_view().subrange(0, k as int),
            decreases one@.len() - k,
        {
            let ghost pre2 = issues.deep_view();
            let it = issue_clone(&one[k]);
            proof {
                assert(it.deep_view() == one.deep_view()[k as int]);
            }
            issues.push(it);
            proof {
                assert(issues.deep_view() =~= pre2.push(it.deep_view()));
                assert(one.deep_view().subrange(0, k + 1 as int) =~= one.deep_view().subrange(
                    0,
                    k as int,
                ).push(one.deep_view()[k as int]));
                assert(issues.deep_view() =~= pre + one.deep_view().subrange(0, k + 1 as int));
            }
            k = k + 1;
        }
        proof {
            assert(one.deep_view().subrange(0, one@.len() as int) =~= one.deep_view());
            assert(issues.deep_view() + run_checks_spec(cs.skip(i + 1), doc, file@, rule_id@)
                =~= pre + check_issues(rest[0], doc, file@, rule_id@) + run_checks_spec(
                rest.drop_first(),
                doc,
                file@,
                rule_id@,
            ));
        }
        i = i + 1;
    }
    proof {
        assert(cs.skip(cs.len() as int) =~= Seq::<CheckSpec>::empty());
        assert(issues.deep_view() =~= run_checks_spec(cs, doc, file@, rule_id@));
    }
    issues
}

fn issue_clone(it: &Issue) -> (r: Issue)
    ensures
        r.deep_view() == it.deep_view(),
{
    Issue {
        file: it.file.clone(),
        rule: it.rule.clone(),
        severity: it.severity.clone(),
        path: it.path.clone(),
        message: it.message.clone(),
    }
}

/// Evaluates one check.
fn eval_check(c: &Check, json: &JsonValue, file: &str, rule_id: &str) -> (issues: Vec<Issue>)
    ensures
        issues.deep_view() == check_issues(c.deep_view(), json.deep(), file@, rule_id@),
{
    let mut issues: Vec<Issue> = Vec::new();
    match c {
        Check::Required { fields, message, level } => {
            let sev = sev_string(level);
            let tmpl = tmpl_chars(message, "Field '{{field}}' is required at $.{{field}}");
            let ghost gt = tmpl@;
            let ghost gs = sev@;
            let mut k: usize = 0;
            proof {
                assert(fields.deep_view().skip(0) =~= fields.deep_view());
                assert(issues.deep_view() =~= Seq::<IssueSpec>::empty());
            }
            while k < fields.len()
                invariant
                    k <= fields@.len(),
                    gt == tmpl@,
                    gs == sev@,
                    fields.deep_view().len() == fields@.len(),
                    issues.deep_view() + req_issues(
                        fields.deep_view().skip(k as int),
                        json.deep(),
                        gt,
                        gs,
                        file@,
                        rule_id@,
                    ) == req_issues(fields.deep_view(), json.deep(), gt, gs, file@, rule_id@),
                decreases fields@.len() - k,
            {
                let ghost frest = fields.deep_view().skip(k as int);
                let ghost pre = issues.deep_view();
                proof {
                    assert(frest[0] == fields@[k as int]@);
                    assert(frest.drop_first() =~= fields.deep_view().skip(k + 1));
                }
                let f = fields[k].as_str();
                let missing = get_json_path(json, f).is_none();
                if missing {
                    let nb = norm_chars(f);
                    let dp = dollar_path_string(f);
                    let m1 = subst(&tmpl, "{{field}}", &nb);
                    let dpc = chars_of(dp.as_str());
                    let m2 = subst(&m1, "{{path}}", &dpc);
                    let it = mk_issue(file, rule_id, &sev, dp, m2);
                    issues.push(it);
                    proof {
                        assert(issues.deep_view() =~= pre.push(it.deep_view()));
                        assert(issues.deep_view() + req_issues(
                            frest.drop_first(),
                            json.deep(),
                            gt,
                            gs,
                            file@,
                            rule_id@,
                        ) =~= pre + req_issues(frest, json.deep(), gt, gs, file@, rule_id@));
                    }
                } else {
                    proof {
                        assert(issues.deep_view() + req_issues(
                            frest.drop_first(),
                            json.deep(),
                            gt,
                            gs,
                            file@,
                            rule_id@,
                        ) =~= pre + req_issues(frest, json.deep(), gt, gs, file@, rule_id@));
                    }
                }
                k = k + 1;
            }
            proof {
                assert(fields.deep_view().skip(fields@.len() as int) =~= Seq::<Seq<char>>::empty());
                assert(issues.deep_view() =~= check_issues(
                    c.deep_view(),
                    json.deep(),
                    file@,
                    rule_id@,
                ));
            }
        },
        Check::TypeOf { fields, message, level } => {
            let sev = sev_string(level);
            let tmpl = tmpl_chars(message, "Expected {{kind}} at $.{{path}}");
            let ghost gt = tmpl@;
            let ghost gs = sev@;
            let mut k: usize = 0;
            proof {
                assert(fields.deep_view().skip(0) =~= fields.deep_view());
                assert(issues.deep_view() =~= Seq::<IssueSpec>::empty());
            }
            while k < fields.len()
                invariant
                    k <= fields@.len(),
                    gt == tmpl@,
                    gs == sev@,
                    fields.deep_view().len() == fields@.len(),
                    issues.deep_view() + type_issues(
                        fields.deep_view().skip(k as int),
                        json.deep(),
                        gt,
                        gs,
                        file@,
                        rule_id@,
                    ) == type_issues(fields.deep_view(), json.deep(), gt, gs, file@, rule_id@),
                decreases fields@.len() - k,
            {
                let ghost frest = fields.deep_view().skip(k as int);
                let ghost pre = issues.deep_view();
                proof {
                    assert(frest[0] == (fields@[k as int].0@, fields@[k as int].1@));
                    assert(frest.drop_first() =~= fields.deep_view().skip(k + 1));
                }
                let f = fields[k].0.as_str();
                let kind = fields[k].1.as_str();
                match get_json_path(json, f) {
                    Some(v) => {
                        if !is_type(v, kind) {
                            let dp = dollar_path_string(f);
                            let kc = chars_of(kind);
                            let m1 = subst(&tmpl, "{{kind}}", &kc);
                            let dpc = chars_of(dp.as_str());
                            let m2 = subst(&m1, "{{path}}", &dpc);
                            let ac = chars_of(json_kind(v));
                            let m3 = subst(&m2, "{{actual}}", &ac);
                            let it = mk_issue(file, rule_id, &sev, dp, m3);
                            issues.push(it);
                            proof {
                                assert(issues.deep_view() =~= pre.push(it.deep_view()));
                                assert(issues.deep_view() + type_issues(
                                    frest.drop_first(),
                                    json.deep(),
                                    gt,
                                    gs,
                                    file@,
                                    rule_id@,
                                ) =~= pre + type_issues(
                                    frest,
                                    json.deep(),
                                    gt,
                                    gs,
                                    file@,
                                    rule_id@,
                                ));
                            }
                        } else {
                            proof {
                                assert(issues.deep_view() + type_issues(
                                    frest.drop_first(),
                                    json.deep(),
                                    gt,
                                    gs,
                                    file@,
                                    rule_id@,
                                ) =~= pre + type_issues(
                                    frest,
                                    json.deep(),
                                    gt,
                                    gs,
                                    file@,
                                    rule_id@,
                                ));
                            }
                        }
                    },
                    None => {
                        proof {
                            assert(issues.deep_view() + type_issues(
                                frest.drop_first(),
                                json.deep(),
                                gt,
                                gs,
                                file@,
                                rule_id@,
                            ) =~= pre + type_issues(frest, json.deep(), gt, gs, file@, rule_id@));
                        }
                    },
                }
                k = k + 1;
            }
            proof {
                assert(fields.deep_view().skip(fields@.len() as int) =~= Seq::<(
                    Seq<char>,
                    Seq<char>,
                )>::empty());
                assert(issues.deep_view() =~= check_issues(
                    c.deep_view(),
                    json.deep(),
                    file@,
                    rule_id@,
                ));
            }
        },
        Check::Const { field, value, message, level } => {
            let sev = sev_string(level);
            let tmpl = tmpl_chars(message, "Field must equal expected value");
            let f = field.as_str();
            let got = get_json_path(json, f);
            let differs = match got {
                Some(v) => !crate::json::json_eq(v, value),
                None => !matches!(value, JsonValue::Null),
            };
            if differs {
                let mut ec: Vec<char> = Vec::new();
                push_compact(&mut ec, value);
                let mut acv: Vec<char> = Vec::new();
                match got {
                    Some(v) => push_compact(&mut acv, v),
                    None => push_compact(&mut acv, &JsonValue::Null),
                }
                let dp = dollar_path_string(f);
                let m1 = subst(&tmpl, "{{expected}}", &ec);
                let m2 = subst(&m1, "{{actual}}", &acv);
                let dpc = chars_of(dp.as_str());
                let m3 = subst(&m2, "{{path}}", &dpc);
                let it = mk_issue(file, rule_id, &sev, dp, m3);
                issues.push(it);
                proof {
                    assert(issues.deep_view() =~= check_issues(
                        c.deep_view(),
                        json.deep(),
                        file@,
                        rule_id@,
                    ));
                }
            } else {
                proof {
                    assert(issues.deep_view() =~= check_issues(
                        c.deep_view(),
                        json.deep(),
                        file@,
                        rule_id@,
                    ));
                }
            }
        },
        Check::Pattern { field, regex, message, level } => {
            let sev = sev_string(level);
            let tmpl = tmpl_chars(message, "Pattern mismatch");
            let f = field.as_str();
            match get_json_path(json, f) {
                Some(v) => {
                    match v {
                        JsonValue::Text(t) => {
                            if !regex_is_match(regex.as_str(), t.as_str()) {
                                let dp = dollar_path_string(f);
                                let rc = chars_of(regex.as_str());
                                let tc = chars_of(t.as_str());
                                let m1 = subst(&tmpl, "{{pattern}}", &rc);
                                let m2 = subst(&m1, "{{actual}}", &tc);
                                let dpc = chars_of(dp.as_str());
                                let m3 = subst(&m2, "{{path}}", &dpc);
                                let it = mk_issue(file, rule_id, &sev, dp, m3);
                                issues.push(it);
                                proof {
                                    assert(issues.deep_view() =~= check_issues(
                                        c.deep_view(),
                                        json.deep(),
                                        file@,
                                        rule_id@,
                                    ));
                                }
                            } else {
                                proof {
                                    assert(issues.deep_view() =~= check_issues(
                                        c.deep_view(),
                                        json.deep(),
                                        file@,
                                        rule_id@,
                                    ));
                                }
                            }
                        },
                        _ => {
                            proof {
                                assert(issues.deep_view() =~= check_issues(
                                    c.deep_view(),
                                    json.deep(),
                                    file@,
                                    rule_id@,
                                ));
                            }
                        },
                    }
                },
                None => {
                    proof {
                        assert(issues.deep_view() =~= check_issues(
                            c.deep_view(),
                            json.deep(),
                            file@,
                            rule_id@,
                        ));
                    }
                },
            }
        },
        Check::Enum { field, values, message, level } => {
            let sev = sev_string(level);
            let tmpl = tmpl_chars(message, "Value not in allowed set");
            let f = field.as_str();
            match get_json_path(json, f) {
                Some(v) => {
                    let mut inside = false;
                    let mut k: usize = 0;
                    while k < values.len()
                        invariant
                            k <= values@.len(),
                            values.deep_view().len() == values@.len(),
                            forall|j: int|
                                0 <= j < values@.len() ==> values.deep_view()[j] == values@[
                                    j
                                ].deep(),
                            inside == exists|j: int|
                                0 <= j < k && values.deep_view()[j] == v.deep(),
                        decreases values@.len() - k,
                    {
                        let e = crate::json::json_eq(&values[k], v);
                        proof {
                            if e {
                                assert(values.deep_view()[k as int] == v.deep());
                            }
                        }
                        inside = inside || e;
                        k = k + 1;
                    }
                    if !inside {
                        let mut ec: Vec<char> = Vec::new();
                        push_compact_values(&mut ec, values);
                        let mut acv: Vec<char> = Vec::new();
                        push_compact(&mut acv, v);
                        let dp = dollar_path_string(f);
                        let m1 = subst(&tmpl, "{{expected}}", &ec);
                        let m2 = subst(&m1, "{{actual}}", &acv);
                        let dpc = chars_of(dp.as_str());
                        let m3 = subst(&m2, "{{path}}", &dpc);
                        let it = mk_issue(file, rule_id, &sev, dp, m3);
                        issues.push(it);
                        proof {
                            assert(issues.deep_view() =~= check_issues(
                                c.deep_view(),
                                json.deep(),
                                file@,
                                rule_id@,
                            ));
                        }
                    } else {
                        proof {
                            assert(issues.deep_view() =~= check_issues(
                                c.deep_view(),
                                json.deep(),
                                file@,
                                rule_id@,
                            ));
                        }
                    }
                },
                None => {
                    proof {
                        assert(issues.deep_view() =~= check_issues(
                            c.deep_view(),
                            json.deep(),
                            file@,
                            rule_id@,
                        ));
                    }
                },
            }
        },
        Check::MinLength { field, min, message, level } => {
            let sev = sev_string(level);
            let tmpl = tmpl_chars(message, "String shorter than minimum");
            let f = field.as_str();
            match get_json_path(json, f) {
                Some(v) => {
                    match v {
                        JsonValue::Text(t) => {
                            let n = t.as_str().unicode_len();
                            if n < *min {
                                let mut ec: Vec<char> = Vec::new();
                                push_usize_dec(&mut ec, *min);
                                let mut acv: Vec<char> = Vec::new();
                                push_usize_dec(&mut acv, n);
                                let dp = dollar_path_string(f);
                                let m1 = subst(&tmpl, "{{expected}}", &ec);
                                let m2 = subst(&m1, "{{actual}}", &acv);
                                let dpc = chars_of(dp.as_str());
                                let m3 = subst(&m2, "{{path}}", &dpc);
                                let it = mk_issue(file, rule_id, &sev, dp, m3);
                                issues.push(it);
                                proof {
                                    assert(issues.deep_view() =~= check_issues(
                                        c.deep_view(),
                                        json.deep(),
                                        file@,
                                        rule_id@,
                                    ));
                                }
                            } else {
                                proof {
                                    assert(issues.deep_view() =~= check_issues(
                                        c.deep_view(),
                                        json.deep(),
                                        file@,
                                        rule_id@,
                                    ));
                                }
                            }
                        },
                        _ => {
                            proof {
                                assert(issues.deep_view() =~= check_issues(
                                    c.deep_view(),
                                    json.deep(),
                                    file@,
                                    rule_id@,
                                ));
                            }
                        },
                    }
                },
                None => {
                    proof {
                        assert(issues.deep_view() =~= check_issues(
                            c.deep_view(),
                            json.deep(),
                            file@,
                            rule_id@,
                        ));
                    }
                },
            }
        },
        Check::MaxLength { field, max, message, level } => {
            let sev = sev_string(level);
            let tmpl = tmpl_chars(message, "String longer than maximum");
            let f = field.as_str();
            match get_json_path(json, f) {
                Some(v) => {
                    match v {
                        JsonValue::Text(t) => {
                            let n = t.as_str().unicode_len();
                            if n > *max {
                                let mut ec: Vec<char> = Vec::new();
                                push_usize_dec(&mut ec, *max);
                                let mut acv: Vec<char> = Vec::new();
                                push_usize_dec(&mut acv, n);
                                let dp = dollar_path_string(f);
                                let m1 = subst(&tmpl, "{{expected}}", &ec);
                                let m2 = subst(&m1, "{{actual}}", &acv);
                                let dpc = chars_of(dp.as_str());
                                let m3 = subst(&m2, "{{path}}", &dpc);
                                let it = mk_issue(file, rule_id, &sev, dp, m3);
                                issues.push(it);
                                proof {
                                    assert(issues.deep_view() =~= check_issues(
                                        c.deep_view(),
                                        json.deep(),
                                        file@,
                                        rule_id@,
                                    ));
                                }
                            } else {
                                proof {
                                    assert(issues.deep_view() =~= check_issues(
                                        c.deep_view(),
                                        json.deep(),
                                        file@,
                                        rule_id@,
                                    ));
                                }
                            }
                        },
                        _ => {
                            proof {
                                assert(issues.deep_view() =~= check_issues(
                                    c.deep_view(),
                                    json.deep(),
                                    file@,
                                    rule_id@,
                                ));
                            }
                        },
                    }
                },
                None => {
                    proof {
                        assert(issues.deep_view() =~= check_issues(
                            c.deep_view(),
                            json.deep(),
                            file@,
                            rule_id@,
                        ));
                    }
                },
            }
        },
    }
    issues
}

/// Appends the compact rendering of a list of values as one JSON array.
fn push_compact_values(out: &mut Vec<char>, values: &Vec<JsonValue>)
    ensures
        final(out)@ == old(out)@ + compact(JsonSpec::Arr(values.deep_view())),
{
    let mut tmp: Vec<char> = Vec::new();
    tmp.push('[');
    let ghost vs = values.deep_view();
    proof {
        assert(vs.skip(0) =~= vs);
        assert(forall|j: int| 0 <= j < values@.len() ==> vs[j] == values@[j].deep());
    }
    let mut i: usize = 0;
    while i < values.len()
        invariant
            i <= values@.len(),
            vs == values.deep_view(),
            vs.len() == values@.len(),
            forall|j: int| 0 <= j < values@.len() ==> vs[j] == values@[j].deep(),
            tmp@ + crate::render::compact_list(vs.skip(i as int)) == seq!['[']
                + crate::render::compact_list(vs),
        decreases values@.len() - i,
    {
        let ghost pre = tmp@;
        let ghost rest = vs.skip(i as int);
        proof {
            assert(rest[0] == values@[i as int].deep());
            assert(rest.drop_first() =~= vs.skip(i + 1));
        }
        push_compact(&mut tmp, &values[i]);
        if i + 1 < values.len() {
            tmp.push(',');
            proof {
                assert(rest.len() > 1);
                assert(tmp@ + crate::render::compact_list(vs.skip(i + 1)) =~= pre
                    + crate::render::compact_list(rest));
            }
        } else {
            proof {
                assert(rest.len() == 1);
                assert(vs.skip(i + 1) =~= Seq::<JsonSpec>::empty());
                assert(tmp@ + crate::render::compact_list(vs.skip(i + 1)) =~= pre
                    + crate::render::compact_list(rest));
            }
        }
        i = i + 1;
    }
    tmp.push(']');
    proof {
        if vs.len() == 0 {
            assert(crate::render::compact_list(vs) =~= Seq::<char>::empty());
        } else {
            assert(vs.skip(vs.len() as int) =~= Seq::<JsonSpec>::empty());
        }
        assert(tmp@ =~= compact(JsonSpec::Arr(vs)));
    }
    let mut k: usize = 0;
    while k < tmp.len()
        invariant
            k <= tmp@.len(),
            out@ == old(out)@ + tmp@.subrange(0, k as int),
        decreases tmp@.len() - k,
    {
        out.push(tmp[k]);
        proof {
            assert(out@ =~= old(out)@ + tmp@.subrange(0, k + 1 as int));
        }
        k = k + 1;
    }
    proof {
        assert(tmp@.subrange(0, tmp@.len() as int) =~= tmp@);
    }
}

} // verus!
