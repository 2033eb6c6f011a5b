//! The ignore-rule matcher.  A ruleset holds repository-root-scoped rules
//! and directory-scoped rule lists.  A rule is a glob pattern with an
//! include flag; within one list the last matching rule wins.  A path is
//! judged by the nearest ancestor directory whose scoped list yields a
//! decision, and only then by the root-scoped list.

use vstd::prelude::*;

use crate::bytes::{trim_spec, is_ws};

verus! {

/// Whether a glob pattern compiles: a function of the pattern bytes alone.
pub uninterp spec fn glob_pattern_ok(pat: Seq<u8>) -> bool;

/// Whether a compiled glob pattern matches a path: a function of the
/// pattern and path bytes alone.
pub uninterp spec fn glob_match(pat: Seq<u8>, path: Seq<u8>) -> bool;

/// Relies on `glob::Pattern::new` and `glob::Pattern::matches`: whether the
/// pattern compiles and whether it matches depend on the two byte strings
/// alone; the path is compared after a lossy text conversion, as the
/// matcher's callers do.
#[verifier::external_body]
fn glob_match_exec(pattern: &Vec<u8>, path: &Vec<u8>) -> (r: Option<bool>)
    ensures
        match r {
            Some(b) => glob_pattern_ok(pattern@) && b == glob_match(pattern@, path@),
            None => !glob_pattern_ok(pattern@),
        },
{
    let p = match core::str::from_utf8(pattern.as_slice()) {
        Ok(p) => p,
        Err(_) => {
            return None;
        },
    };
    let s = String::from_utf8_lossy(path.as_slice());
    match glob::Pattern::new(p) {
        Ok(g) => Some(g.matches(&s)),
        Err(_) => None,
    }
}

/// One parsed ignore line: `None` for blank lines and comments, otherwise
/// the pattern with its include flag (`false` for a negated `!` rule).
pub open spec fn parse1_spec(line: Seq<u8>) -> Option<(Seq<u8>, bool)> {
    let t = trim_spec(line);
    if t.len() == 0 || t[0] == 35 {
        None
    } else if t[0] == 33 {
        Some((t.skip(1), false))
    } else if t[0] == 92 {
        Some((t.skip(1), true))
    } else {
        Some((t, true))
    }
}

/// The rules a list of lines yields, in order.
pub open spec fn rules_of(lines: Seq<Seq<u8>>) -> Seq<(Seq<u8>, bool)>
    decreases lines.len(),
{
    if lines.len() == 0 {
        seq![]
    } else {
        (match parse1_spec(lines[0]) {
            Some(r) => seq![r],
            None => seq![],
        }) + rules_of(lines.skip(1))
    }
}

/// The mathematical shape of a rule list.
pub open spec fn rules_view(rs: Seq<(Vec<u8>, bool)>) -> Seq<(Seq<u8>, bool)> {
    rs.map_values(|r: (Vec<u8>, bool)| (r.0@, r.1))
}

/// Parses one ignore line.
pub fn gitignore_parse1(raw: &Vec<u8>) -> (r: Option<(Vec<u8>, bool)>)
    ensures
        match r {
            Some(p) => parse1_spec(raw@) == Some((p.0@, p.1)),
            None => parse1_spec(raw@) is None,
        },
{
    let t = crate::bytes::trim(raw);
    if t.len() == 0 {
        return None;
    }
    let first = t[0];
    if first == 35 {
        None
    } else if first == 33 {
        let rest = crate::bytes::bytes_range(&t, 1, t.len());
        assert(rest@ =~= trim_spec(raw@).skip(1));
        Some((rest, false))
    } else if first == 92 {
        let rest = crate::bytes::bytes_range(&t, 1, t.len());
        assert(rest@ =~= trim_spec(raw@).skip(1));
        Some((rest, true))
    } else {
        Some((t, true))
    }
}

/// Parses a list of ignore lines into rules, keeping their order.
pub fn gitignore_parse(lines: &Vec<Vec<u8>>) -> (r: Vec<(Vec<u8>, bool)>)
    ensures
        rules_view(r@) == rules_of(lines.deep_view()),
{
    let ghost lv = lines.deep_view();
    let mut r: Vec<(Vec<u8>, bool)> = Vec::new();
    let mut i: usize = 0;
    assert(lv.skip(0) =~= lv);
    assert(rules_view(r@) =~= Seq::<(Seq<u8>, bool)>::empty());
    while i < lines.len()
        invariant
            i <= lines@.len(),
            lv == lines.deep_view(),
            rules_of(lv) == rules_view(r@) + rules_of(lv.skip(i as int)),
        decreases lines@.len() - i,
    {
        proof {
            assert(lv.skip(i as int)[0] == lv[i as int]);
            assert(lv[i as int] == lines@[i as int]@);
            assert(lv.skip(i as int).skip(1) =~= lv.skip(i + 1));
        }
        let ghost r0 = rules_view(r@);
        match gitignore_parse1(&lines[i]) {
            Some(rule) => {
                let ghost rv = (rule.0@, rule.1);
                r.push(rule);
                proof {
                    assert(rules_view(r@) =~= r0.push(rv));
                    assert(rules_of(lv) =~= rules_view(r@) + rules_of(lv.skip(i + 1)));
                }
            },
            None => {
                proof {
                    assert(rules_of(lv) =~= rules_view(r@) + rules_of(lv.skip(i + 1)));
                }
            },
        }
        i = i + 1;
    }
    proof {
        assert(rules_of(lv.skip(lv.len() as int)) =~= Seq::<(Seq<u8>, bool)>::empty());
        assert(rules_view(r@) =~= rules_of(lv));
    }
    r
}

/// The decision one rule list gives: the include flag of the last rule
/// whose pattern compiles and matches the path, if any does.
pub open spec fn last_match(rules: Seq<(Seq<u8>, bool)>, path: Seq<u8>) -> Option<bool>
    decreases rules.len(),
{
    if rules.len() == 0 {
        None
    } else if glob_pattern_ok(rules.last().0) && glob_match(rules.last().0, path) {
        Some(rules.last().1)
    } else {
        last_match(rules.drop_last(), path)
    }
}

/// A later matching rule overrides every earlier one in its list; in
/// particular a later negated rule un-ignores an earlier match.
pub proof fn lemma_last_match_wins(rules: Seq<(Seq<u8>, bool)>, r: (Seq<u8>, bool), path: Seq<u8>)
    ensures
        glob_pattern_ok(r.0) && glob_match(r.0, path) ==> last_match(rules.push(r), path) == Some(
            r.1,
        ),
        !(glob_pattern_ok(r.0) && glob_match(r.0, path)) ==> last_match(rules.push(r), path)
            == last_match(rules, path),
{
    assert(rules.push(r).last() == r);
    assert(rules.push(r).drop_last() =~= rules);
}

/// Evaluates one rule list against a path, last match winning.
pub fn check_ignore1(rules: &Vec<(Vec<u8>, bool)>, path: &Vec<u8>) -> (r: Option<bool>)
    ensures
        r == last_match(rules_view(rules@), path@),
{
    let ghost rv = rules_view(rules@);
    let mut result: Option<bool> = None;
    let mut i: usize = 0;
    assert(rv.take(0) =~= Seq::<(Seq<u8>, bool)>::empty());
    while i < rules.len()
        invariant
            i <= rules@.len(),
            rv == rules_view(rules@),
            result == last_match(rv.take(i as int), path@),
        decreases rules@.len() - i,
    {
        proof {
            assert(rv[i as int] == (rules@[i as int].0@, rules@[i as int].1));
            assert(rv.take(i + 1).last() == rv[i as int]);
            assert(rv.take(i + 1).drop_last() =~= rv.take(i as int));
        }
        match glob_match_exec(&rules[i].0, path) {
            Some(true) => {
                result = Some(rules[i].1);
            },
            Some(false) => {},
            None => {},
        }
        i = i + 1;
    }
    proof {
        assert(rv.take(rv.len() as int) =~= rv);
    }
    result
}

/// The last position of `b` in `s`.
pub open spec fn rfind(s: Seq<u8>, b: u8) -> Option<int>
    decreases s.len(),
{
    if s.len() == 0 {
        None
    } else if s.last() == b {
        Some(s.len() - 1)
    } else {
        rfind(s.drop_last(), b)
    }
}

/// The parent directory of a relative path: everything before the last
/// slash, the empty root for a bare name, nothing for the root itself.
pub open spec fn parent_spec(p: Seq<u8>) -> Option<Seq<u8>> {
    match rfind(p, 47) {
        Some(i) => Some(p.take(i)),
        None => if p.len() > 0 {
            Some(Seq::<u8>::empty())
        } else {
            None
        },
    }
}

pub proof fn lemma_rfind_bounds(s: Seq<u8>, b: u8)
    ensures
        match rfind(s, b) {
            Some(i) => 0 <= i < s.len() && s[i] == b,
            None => true,
        },
    decreases s.len(),
{
    if s.len() > 0 && s.last() != b {
        lemma_rfind_bounds(s.drop_last(), b);
        match rfind(s.drop_last(), b) {
            Some(i) => {
                assert(s.drop_last()[i] == s[i]);
            },
            None => {},
        }
    }
}

/// The parent of a relative path, as the ancestor walk uses it.
pub fn parent_dir(p: &Vec<u8>) -> (r: Option<Vec<u8>>)
    ensures
        match r {
            Some(par) => parent_spec(p@) == Some(par@),
            None => parent_spec(p@) is None,
        },
{
    proof {
        lemma_rfind_bounds(p@, 47);
    }
    let mut i: usize = p.len();
    assert(p@.take(p@.len() as int) =~= p@);
    while i > 0
        invariant
            i <= p@.len(),
            rfind(p@, 47) == rfind(p@.take(i as int), 47),
        decreases i,
    {
        proof {
            assert(p@.take(i as int).last() == p@[i - 1]);
            assert(p@.take(i as int).drop_last() =~= p@.take(i - 1));
        }
        if p[i - 1] == 47 {
            proof {
                assert(rfind(p@, 47) == Some(i - 1));
            }
            let par = crate::bytes::bytes_range(p, 0, i - 1);
            assert(par@ =~= p@.take(i - 1));
            return Some(par);
        }
        i = i - 1;
    }
    proof {
        assert(p@.take(0) =~= Seq::<u8>::empty());
        assert(rfind(p@, 47) is None);
    }
    if p.len() > 0 {
        let empty: Vec<u8> = Vec::new();
        assert(empty@ =~= Seq::<u8>::empty());
        Some(empty)
    } else {
        None
    }
}

/// Root-scoped rules and directory-scoped rule lists, one per directory
/// that carries its own ignore file.
pub struct Ignore {
    pub absolute: Vec<(Vec<u8>, bool)>,
    pub scoped: Vec<(Vec<u8>, Vec<(Vec<u8>, bool)>)>,
}

/// The mathematical shape of the scoped lists.
pub open spec fn scoped_view(s: Seq<(Vec<u8>, Vec<(Vec<u8>, bool)>)>) -> Seq<
    (Seq<u8>, Seq<(Seq<u8>, bool)>),
> {
    s.map_values(|p: (Vec<u8>, Vec<(Vec<u8>, bool)>)| (p.0@, rules_view(p.1@)))
}

/// The rule list registered for a directory, if any: first entry wins.
pub open spec fn scoped_lookup(s: Seq<(Seq<u8>, Seq<(Seq<u8>, bool)>)>, dir: Seq<u8>) -> Option<
    Seq<(Seq<u8>, bool)>,
>
    decreases s.len(),
{
    if s.len() == 0 {
        None
    } else if s[0].0 == dir {
        Some(s[0].1)
    } else {
        scoped_lookup(s.skip(1), dir)
    }
}

/// The decision of the ancestor walk from `cur` upward: the first ancestor
/// whose scoped list yields a decision on the full path decides.
pub open spec fn scoped_decision_at(
    s: Seq<(Seq<u8>, Seq<(Seq<u8>, bool)>)>,
    path: Seq<u8>,
    cur: Seq<u8>,
) -> Option<bool>
    decreases cur.len(),
{
    match parent_spec(cur) {
        None => None,
        Some(par) => {
            if par.len() >= cur.len() {
                None
            } else {
                let here = match scoped_lookup(s, par) {
                    Some(rules) => last_match(rules, path),
                    None => None,
                };
                match here {
                    Some(b) => Some(b),
                    None => scoped_decision_at(s, path, par),
                }
            }
        },
    }
}

/// The decision of the directory-scoped lists on a path.
pub open spec fn scoped_decision(s: Seq<(Seq<u8>, Seq<(Seq<u8>, bool)>)>, path: Seq<u8>) -> Option<
    bool,
> {
    scoped_decision_at(s, path, path)
}

/// What the matcher answers: the nearest deciding scope, else the
/// root-scoped rules, else not ignored.
pub open spec fn ignore_decision(
    scoped: Seq<(Seq<u8>, Seq<(Seq<u8>, bool)>)>,
    absolute: Seq<(Seq<u8>, bool)>,
    path: Seq<u8>,
) -> bool {
    match scoped_decision(scoped, path) {
        Some(b) => b,
        None => match last_match(absolute, path) {
            Some(b) => b,
            None => false,
        },
    }
}

/// A nearest-ancestor decision overrides the root-scoped rules outright:
/// the scope precedence law.
pub proof fn lemma_scoped_overrides_absolute(
    scoped: Seq<(Seq<u8>, Seq<(Seq<u8>, bool)>)>,
    absolute: Seq<(Seq<u8>, bool)>,
    path: Seq<u8>,
    b: bool,
)
    requires
        scoped_decision(scoped, path) == Some(b),
    ensures
        ignore_decision(scoped, absolute, path) == b,
{
}

/// Looks a directory up among the scoped lists.
fn scoped_get<'a>(
    scoped: &'a Vec<(Vec<u8>, Vec<(Vec<u8>, bool)>)>,
    dir: &Vec<u8>,
) -> (r: Option<&'a Vec<(Vec<u8>, bool)>>)
    ensures
        match r {
            Some(rules) => scoped_lookup(scoped_view(scoped@), dir@) == Some(rules_view(rules@)),
            None => scoped_lookup(scoped_view(scoped@), dir@) is None,
        },
{
    let ghost sv = scoped_view(scoped@);
    let mut i: usize = 0;
    assert(sv.skip(0) =~= sv);
    while i < scoped.len()
        invariant
            i <= scoped@.len(),
            sv == scoped_view(scoped@),
            forall|j: int| 0 <= j < i ==> (#[trigger] sv[j]).0 != dir@,
            scoped_lookup(sv, dir@) == scoped_lookup(sv.skip(i as int), dir@),
        decreases scoped@.len() - i,
    {
        proof {
            assert(sv[i as int] == (scoped@[i as int].0@, rules_view(scoped@[i as int].1@)));
            assert(sv.skip(i as int)[0] == sv[i as int]);
            assert(sv.skip(i as int).skip(1) =~= sv.skip(i + 1));
        }
        if crate::bytes::bytes_eq(&scoped[i].0, dir) {
            return Some(&scoped[i].1);
        }
        i = i + 1;
    }
    proof {
        assert(sv.skip(sv.len() as int) =~= Seq::<(Seq<u8>, Seq<(Seq<u8>, bool)>)>::empty());
    }
    None
}

/// Runs the ancestor walk: nearest scope first, the full path matched each
/// time.
pub fn check_ignore_scoped(
    scoped: &Vec<(Vec<u8>, Vec<(Vec<u8>, bool)>)>,
    path: &Vec<u8>,
) -> (r: Option<bool>)
    ensures
        r == scoped_decision(scoped_view(scoped@), path@),
{
    let ghost sv = scoped_view(scoped@);
    let mut cur = crate::bytes::bytes_range(path, 0, path.len());
    assert(cur@ =~= path@);
    loop
        invariant
            sv == scoped_view(scoped@),
            scoped_decision_at(sv, path@, path@) == scoped_decision_at(sv, path@, cur@),
        decreases cur@.len(),
    {
        let par = match parent_dir(&cur) {
            None => {
                return None;
            },
            Some(par) => par,
        };
        proof {
            lemma_rfind_bounds(cur@, 47);
            assert(par@.len() < cur@.len());
        }
        match scoped_get(scoped, &par) {
            Some(rules) => {
                match check_ignore1(rules, path) {
                    Some(b) => {
                        return Some(b);
                    },
                    None => {},
                }
            },
            None => {},
        }
        cur = par;
    }
}

/// Evaluates the root-scoped rules; an unmatched path is not ignored.
pub fn check_ignore_absolute(rules: &Vec<(Vec<u8>, bool)>, path: &Vec<u8>) -> (r: bool)
    ensures
        r == (match last_match(rules_view(rules@), path@) {
            Some(b) => b,
            None => false,
        }),
{
    match check_ignore1(rules, path) {
        Some(b) => b,
        None => false,
    }
}

/// Judges one worktree-relative path against the whole ruleset.  The path
/// must be relative: an absolute path is a caller bug, kept out by
/// precondition.
pub fn check_ignore_path(ignore: &Ignore, path: &Vec<u8>) -> (r: bool)
    requires
        path@.len() == 0 || path@[0] != 47,
    ensures
        r == ignore_decision(scoped_view(ignore.scoped@), rules_view(ignore.absolute@), path@),
{
    match check_ignore_scoped(&ignore.scoped, path) {
        Some(b) => b,
        None => check_ignore_absolute(&ignore.absolute, path),
    }
}

} // verus!
