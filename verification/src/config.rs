//! Effective settings from configuration and command-line flags.
//!
//! A command's effective settings merge three layers: explicit
//! command-line values win, then values from the discovered
//! configuration file, then built-in defaults (`repo` scope, `human`
//! output, strict blank-line handling, no writing). Reading and parsing
//! the configuration file is the caller's business; this module only
//! resolves precedence.

use vstd::prelude::*;
use vstd::string::*;

verus! {

/// Formatting options of a configuration file.
pub struct FormatCfg {
    pub write: Option<bool>,
    pub diff: Option<bool>,
    pub check: Option<bool>,
    pub strict_linebreak: Option<bool>,
    pub linebreak: Option<LineBreakCfg>,
}

/// Blank-line options of a configuration file.
pub struct LineBreakCfg {
    pub between_groups: Option<bool>,
    pub before_fields: Vec<(String, String)>,
    pub in_fields: Vec<(String, String)>,
}

/// Per-rule pattern overrides of a configuration file.
pub struct RulePatternOverride {
    pub patterns: Vec<String>,
}

/// The root configuration file's contents.
pub struct RigletConfig {
    pub index: Option<String>,
    pub scope: Option<String>,
    pub output: Option<String>,
    pub format: Option<FormatCfg>,
    pub rules: Vec<(String, RulePatternOverride)>,
}

/// Fully resolved settings for one command run.
pub struct Effective {
    pub repo_root: String,
    pub index: String,
    pub index_configured: bool,
    pub scope: String,
    pub output: String,
    pub write: bool,
    pub diff: bool,
    pub check: bool,
    pub strict_linebreak: bool,
    pub lb_between_groups: Option<bool>,
    pub lb_before_fields: Vec<(String, String)>,
    pub lb_in_fields: Vec<(String, String)>,
    pub pattern_overrides: Vec<(String, Vec<String>)>,
}

/// The view of an optional string.
pub open spec fn opt_view(o: Option<String>) -> Option<Seq<char>> {
    match o {
        Some(s) => Some(s@),
        None => None,
    }
}

/// A string chosen by precedence: the command line's, else the
/// configuration's, else the default.
pub open spec fn pick_str(
    cli: Option<Seq<char>>,
    cfg: Option<Seq<char>>,
    dflt: Seq<char>,
) -> Seq<char> {
    match cli {
        Some(s) => s,
        None => match cfg {
            Some(s) => s,
            None => dflt,
        },
    }
}

/// A flag chosen by precedence.
pub open spec fn pick_bool(cli: Option<bool>, cfg: Option<bool>, dflt: bool) -> bool {
    match cli {
        Some(b) => b,
        None => match cfg {
            Some(b) => b,
            None => dflt,
        },
    }
}

/// The format section's copy of one optional flag.
pub open spec fn fmt_flag(cfg: Option<FormatCfg>, which: int) -> Option<bool> {
    match cfg {
        Some(f) => if which == 0 {
            f.write
        } else if which == 1 {
            f.diff
        } else if which == 2 {
            f.check
        } else {
            f.strict_linebreak
        },
        None => None,
    }
}

fn clone_pairs(v: &Vec<(String, String)>) -> (out: Vec<(String, String)>)
    ensures
        out.deep_view() == v.deep_view(),
{
    let mut out: Vec<(String, String)> = Vec::new();
    let mut i: usize = 0;
    while i < v.len()
        invariant
            i <= v@.len(),
            out@.len() == i,
            forall|j: int|
                0 <= j < i ==> out@[j].0@ == v@[j].0@ && out@[j].1@ == v@[j].1@,
        decreases v@.len() - i,
    {
        let a = v[i].0.clone();
        let b = v[i].1.clone();
        out.push((a, b));
        i = i + 1;
    }
    proof {
        assert(out.deep_view() =~~= v.deep_view());
    }
    out
}

fn clone_strings(v: &Vec<String>) -> (out: Vec<String>)
    ensures
        out.deep_view() == v.deep_view(),
{
    let mut out: Vec<String> = Vec::new();
    let mut i: usize = 0;
    while i < v.len()
        invariant
            i <= v@.len(),
            out@.len() == i,
            forall|j: int| 0 <= j < i ==> out@[j]@ == v@[j]@,
        decreases v@.len() - i,
    {
        let a = v[i].clone();
        out.push(a);
        i = i + 1;
    }
    proof {
        assert(out.deep_view() =~~= v.deep_view());
    }
    out
}

/// Resolves the effective settings: command line over configuration
/// over defaults, each field independently. The repository root and the
/// parsed configuration, if one was found, come from the caller.
pub fn resolve_effective(
    repo_root: &str,
    cfg: &Option<RigletConfig>,
    cli_index: Option<&str>,
    cli_scope: Option<&str>,
    cli_output: Option<&str>,
    cli_write: Option<bool>,
    cli_diff: Option<bool>,
    cli_check: Option<bool>,
) -> (eff: Effective)
    ensures
        eff.repo_root@ == repo_root@,
        eff.index@ == pick_str(
            match cli_index {
                Some(s) => Some(s@),
                None => None,
            },
            match cfg {
                Some(c) => opt_view(c.index),
                None => None,
            },
            Seq::empty(),
        ),
        eff.index_configured == (cli_index is Some || (cfg matches Some(c) && c.index is Some)),
        eff.scope@ == pick_str(
            match cli_scope {
                Some(s) => Some(s@),
                None => None,
            },
            match cfg {
                Some(c) => opt_view(c.scope),
                None => None,
            },
            "repo"@,
        ),
        eff.output@ == pick_str(
            match cli_output {
                Some(s) => Some(s@),
                None => None,
            },
            match cfg {
                Some(c) => opt_view(c.output),
                None => None,
            },
            "human"@,
        ),
        eff.write == pick_bool(
            cli_write,
            match cfg {
                Some(c) => fmt_flag(c.format, 0),
                None => None,
            },
            false,
        ),
        eff.diff == pick_bool(
            cli_diff,
            match cfg {
                Some(c) => fmt_flag(c.format, 1),
                None => None,
            },
            false,
        ),
        eff.check == pick_bool(
            cli_check,
            match cfg {
                Some(c) => fmt_flag(c.format, 2),
                None => None,
            },
            false,
        ),
        eff.strict_linebreak == pick_bool(
            None,
            match cfg {
                Some(c) => fmt_flag(c.format, 3),
                None => None,
            },
            true,
        ),
        eff.lb_between_groups == (match cfg {
            Some(c) => match c.format {
                Some(f) => match f.linebreak {
                    Some(l) => l.between_groups,
                    None => None,
                },
                None => None,
            },
            None => None,
        }),
        eff.lb_before_fields.deep_view() == (match cfg {
            Some(c) => match c.format {
                Some(f) => match f.linebreak {
                    Some(l) => l.before_fields.deep_view(),
                    None => Seq::<(Seq<char>, Seq<char>)>::empty(),
                },
                None => Seq::<(Seq<char>, Seq<char>)>::empty(),
            },
            None => Seq::<(Seq<char>, Seq<char>)>::empty(),
        }),
        eff.lb_in_fields.deep_view() == (match cfg {
            Some(c) => match c.format {
                Some(f) => match f.linebreak {
                    Some(l) => l.in_fields.deep_view(),
                    None => Seq::<(Seq<char>, Seq<char>)>::empty(),
                },
                None => Seq::<(Seq<char>, Seq<char>)>::empty(),
            },
            None => Seq::<(Seq<char>, Seq<char>)>::empty(),
        }),
        eff.pattern_overrides@.len() == (match cfg {
            Some(c) => c.rules@.len() as int,
            None => 0int,
        }),
        forall|j: int|
            0 <= j < eff.pattern_overrides@.len() ==> (match cfg {
                Some(c) => #[trigger] eff.pattern_overrides@[j].0@ == c.rules@[j].0@
                    && eff.pattern_overrides@[j].1.deep_view() == c.rules@[j].1.patterns.deep_view(),
                None => false,
            }),
{
    let index: String;
    let index_configured: bool;
    match cli_index {
        Some(s) => {
            index = String::from_str(s);
            index_configured = true;
        },
        None => {
            match cfg {
                Some(c) => match &c.index {
                    Some(s) => {
                        index = s.clone();
                        index_configured = true;
                    },
                    None => {
                        index = String::new();
                        index_configured = false;
                    },
                },
                None => {
                    index = String::new();
                    index_configured = false;
                },
            }
        },
    }
    let scope: String = match cli_scope {
        Some(s) => String::from_str(s),
        None => match cfg {
            Some(c) => match &c.scope {
                Some(s) => s.clone(),
                None => String::from_str("repo"),
            },
            None => String::from_str("repo"),
        },
    };
    let output: String = match cli_output {
        Some(s) => String::from_str(s),
        None => match cfg {
            Some(c) => match &c.output {
                Some(s) => s.clone(),
                None => String::from_str("human"),
            },
            None => String::from_str("human"),
        },
    };
    let write: bool = match cli_write {
        Some(b) => b,
        None => match cfg {
            Some(c) => match &c.format {
                Some(f) => match f.write {
                    Some(b) => b,
                    None => false,
                },
                None => false,
            },
            None => false,
        },
    };
    let diff: bool = match cli_diff {
        Some(b) => b,
        None => match cfg {
            Some(c) => match &c.format {
                Some(f) => match f.diff {
                    Some(b) => b,
                    None => false,
                },
                None => false,
            },
            None => false,
        },
    };
    let check: bool = match cli_check {
        Some(b) => b,
        None => match cfg {
            Some(c) => match &c.format {
                Some(f) => match f.check {
                    Some(b) => b,
                    None => false,
                },
                None => false,
            },
            None => false,
        },
    };
    let strict_linebreak: bool = match cfg {
        Some(c) => match &c.format {
            Some(f) => match f.strict_linebreak {
                Some(b) => b,
                None => true,
            },
            None => true,
        },
        None => true,
    };
    let lb_between_groups: Option<bool> = match cfg {
        Some(c) => match &c.format {
            Some(f) => match &f.linebreak {
                Some(l) => l.between_groups,
                None => None,
            },
            None => None,
        },
        None => None,
    };
    let lb_before_fields: Vec<(String, String)> = match cfg {
        Some(c) => match &c.format {
            Some(f) => match &f.linebreak {
                Some(l) => clone_pairs(&l.before_fields),
                None => Vec::new(),
            },
            None => Vec::new(),
        },
        None => Vec::new(),
    };
    let lb_in_fields: Vec<(String, String)> = match cfg {
        Some(c) => match &c.format {
            Some(f) => match &f.linebreak {
                Some(l) => clone_pairs(&l.in_fields),
                None => Vec::new(),
            },
            None => Vec::new(),
        },
        None => Vec::new(),
    };
    let mut pattern_overrides: Vec<(String, Vec<String>)> = Vec::new();
    match cfg {
        Some(c) => {
            let mut i: usize = 0;
            while i < c.rules.len()
                invariant
                    i <= c.rules@.len(),
                    pattern_overrides@.len() == i,
                    forall|j: int|
                        0 <= j < i ==> #[trigger] pattern_overrides@[j].0@ == c.rules@[j].0@
                            && pattern_overrides@[j].1.deep_view() == c.rules@[
                            j
                        ].1.patterns.deep_view(),
                decreases c.rules@.len() - i,
            {
                let id = c.rules[i].0.clone();
                let pats = clone_strings(&c.rules[i].1.patterns);
                pattern_overrides.push((id, pats));
                i = i + 1;
            }
            proof {
                assert(*c == (*cfg)->Some_0);
                assert(pattern_overrides@.len() == (*cfg)->Some_0.rules@.len());
                assert(forall|j: int|
                    0 <= j < pattern_overrides@.len() ==> #[trigger] pattern_overrides@[j].0@
                        == (*cfg)->Some_0.rules@[j].0@ && pattern_overrides@[j].1.deep_view()
                        == (*cfg)->Some_0.rules@[j].1.patterns.deep_view());
            }
        },
        None => {},
    }
    proof {
        if !((*cfg) is Some && (*cfg)->Some_0.format is Some
            && (*cfg)->Some_0.format->Some_0.linebreak is Some) {
            assert(lb_before_fields.deep_view() =~= Seq::<(Seq<char>, Seq<char>)>::empty());
            assert(lb_in_fields.deep_view() =~= Seq::<(Seq<char>, Seq<char>)>::empty());
        }
    }
    Effective {
        repo_root: String::from_str(repo_root),
        index,
        index_configured,
        scope,
        output,
        write,
        diff,
        check,
        strict_linebreak,
        lb_between_groups,
        lb_before_fields,
        lb_in_fields,
        pattern_overrides,
    }
}

} // verus!
