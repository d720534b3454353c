//! The rule-based path filter.
//!
//! A rule is compiled from a textual pattern: `*` matches any run of bytes,
//! `?` matches one byte, `\x` matches the byte `x` itself, and every other
//! byte matches itself. A pattern ending in a lone `\` fails to compile,
//! which is a fatal configuration error. A path is excluded when any rule
//! matches the path or one of its directory ancestors: exclusion is
//! inherited downward.

use vstd::prelude::*;

use crate::bytestr::SLASH;
use crate::bytestr::BACKSLASH;

verus! {

/// The star byte `*`.
pub const STAR: u8 = 42;

/// The question-mark byte `?`.
pub const QUESTION: u8 = 63;

/// One compiled element of a pattern.
#[derive(Clone, Copy)]
pub enum PatTok {
    /// Matches exactly this byte.
    Lit(u8),
    /// Matches any one byte.
    AnyChar,
    /// Matches any run of bytes, empty runs included.
    AnyRun,
}

/// The compiled form of a pattern, or `None` where the pattern is invalid
/// (it ends in a lone escape byte).
pub open spec fn compile_spec(p: Seq<u8>) -> Option<Seq<PatTok>>
    decreases p.len(),
{
    if p.len() == 0 {
        Some(Seq::empty())
    } else if p[0] == STAR {
        match compile_spec(p.skip(1)) {
            Some(rest) => Some(seq![PatTok::AnyRun] + rest),
            None => None,
        }
    } else if p[0] == QUESTION {
        match compile_spec(p.skip(1)) {
            Some(rest) => Some(seq![PatTok::AnyChar] + rest),
            None => None,
        }
    } else if p[0] == BACKSLASH {
        if p.len() == 1 {
            None
        } else {
            match compile_spec(p.skip(2)) {
                Some(rest) => Some(seq![PatTok::Lit(p[1])] + rest),
                None => None,
            }
        }
    } else {
        match compile_spec(p.skip(1)) {
            Some(rest) => Some(seq![PatTok::Lit(p[0])] + rest),
            None => None,
        }
    }
}

/// Whether a compiled pattern matches a whole byte string.
pub open spec fn glob_match(p: Seq<PatTok>, t: Seq<u8>) -> bool
    decreases p.len(), t.len(),
{
    if p.len() == 0 {
        t.len() == 0
    } else {
        match p[0] {
            PatTok::Lit(c) => t.len() > 0 && t[0] == c && glob_match(p.skip(1), t.skip(1)),
            PatTok::AnyChar => t.len() > 0 && glob_match(p.skip(1), t.skip(1)),
            PatTok::AnyRun => exists|k: int|
                0 <= k <= t.len() && glob_match(p.skip(1), t.skip(k)),
        }
    }
}

/// Compiles one pattern.
pub fn compile_pattern(p: &[u8]) -> (r: Option<Vec<PatTok>>)
    ensures
        match r {
            Some(toks) => compile_spec(p@) == Some(toks@),
            None => compile_spec(p@) is None,
        },
{
    let mut out: Vec<PatTok> = Vec::new();
    let mut i: usize = 0;
    proof {
        assert(p@.skip(0) =~= p@);
        assert forall|rest: Seq<PatTok>|
            compile_spec(p@.skip(0)) == Some(rest) implies compile_spec(p@) == Some(
            out@ + rest,
        ) by {
            assert(out@ + rest =~= rest);
        }
    }
    while i < p.len()
        invariant
            i <= p.len(),
            forall|rest: Seq<PatTok>|
                compile_spec(p@.skip(i as int)) == Some(rest) ==> compile_spec(p@) == Some(
                    out@ + rest,
                ),
            compile_spec(p@.skip(i as int)) is None ==> compile_spec(p@) is None,
        decreases p.len() - i,
    {
        let ghost pre = out@;
        let ghost suffix = p@.skip(i as int);
        let b = p[i];
        assert(suffix[0] == p@[i as int]);
        let step: usize;
        if b == STAR {
            out.push(PatTok::AnyRun);
            step = 1;
        } else if b == QUESTION {
            out.push(PatTok::AnyChar);
            step = 1;
        } else if b == BACKSLASH {
            if i + 1 == p.len() {
                proof {
                    assert(suffix.len() == 1);
                    assert(compile_spec(suffix) is None);
                }
                return None;
            }
            out.push(PatTok::Lit(p[i + 1]));
            assert(suffix[1] == p@[i + 1]);
            step = 2;
        } else {
            out.push(PatTok::Lit(b));
            step = 1;
        }
        proof {
            assert(suffix.skip(step as int) =~= p@.skip(i + step));
            let tok = out@.last();
            assert(out@ == pre.push(tok));
            assert forall|rest: Seq<PatTok>|
                compile_spec(p@.skip(i + step)) == Some(rest) implies compile_spec(p@) == Some(
                out@ + rest,
            ) by {
                assert(compile_spec(suffix) == Some(seq![tok] + rest));
                assert(pre + (seq![tok] + rest) =~= out@ + rest);
            }
        }
        i += step;
    }
    proof {
        assert(p@.skip(p@.len() as int) =~= Seq::<u8>::empty());
        assert(compile_spec(p@.skip(i as int)) == Some(Seq::<PatTok>::empty()));
        assert(out@ + Seq::<PatTok>::empty() =~= out@);
    }
    Some(out)
}

/// Whether the pattern suffix from `pi` matches the text suffix from `ti`.
fn glob_match_at(p: &[PatTok], pi: usize, t: &[u8], ti: usize) -> (r: bool)
    requires
        pi <= p.len(),
        ti <= t.len(),
    ensures
        r == glob_match(p@.skip(pi as int), t@.skip(ti as int)),
    decreases p.len() - pi, t.len() + 1 - ti,
{
    let ghost ps = p@.skip(pi as int);
    let ghost ts = t@.skip(ti as int);
    if pi == p.len() {
        proof {
            assert(ps =~= Seq::<PatTok>::empty());
        }
        return ti == t.len();
    }
    assert(ps[0] == p@[pi as int]);
    proof {
        assert(ps.skip(1) =~= p@.skip(pi + 1));
    }
    match p[pi] {
        PatTok::Lit(c) => {
            if ti < t.len() && t[ti] == c {
                proof {
                    assert(ts[0] == t@[ti as int]);
                    assert(ts.skip(1) =~= t@.skip(ti + 1));
                }
                glob_match_at(p, pi + 1, t, ti + 1)
            } else {
                false
            }
        },
        PatTok::AnyChar => {
            if ti < t.len() {
                proof {
                    assert(ts.skip(1) =~= t@.skip(ti + 1));
                }
                glob_match_at(p, pi + 1, t, ti + 1)
            } else {
                false
            }
        },
        PatTok::AnyRun => {
            let mut k: usize = ti;
            while k < t.len()
                invariant
                    ti <= k <= t.len(),
                    pi < p.len(),
                    ti <= t.len(),
                    ps == p@.skip(pi as int),
                    ts == t@.skip(ti as int),
                    ps[0] is AnyRun,
                    ps.skip(1) == p@.skip(pi + 1),
                    forall|j: int|
                        ti <= j < k ==> !glob_match(p@.skip(pi + 1), t@.skip(j)),
                decreases t.len() - k,
            {
                if glob_match_at(p, pi + 1, t, k) {
                    proof {
                        assert(t@.skip(k as int) =~= ts.skip(k - ti));
                        assert(glob_match(ps.skip(1), ts.skip(k - ti)));
                        assert(0 <= k - ti <= ts.len());
                    }
                    return true;
                }
                k += 1;
            }
            if glob_match_at(p, pi + 1, t, t.len()) {
                proof {
                    assert(t@.skip(t@.len() as int) =~= ts.skip(ts.len() as int));
                    assert(glob_match(ps.skip(1), ts.skip(ts.len() as int)));
                }
                return true;
            }
            proof {
                assert(!glob_match(ps, ts)) by {
                    if glob_match(ps, ts) {
                        let j = choose|j: int|
                            0 <= j <= ts.len() && glob_match(ps.skip(1), ts.skip(j));
                        assert(ts.skip(j) =~= t@.skip(ti + j));
                        if ti + j < t@.len() {
                            assert(!glob_match(p@.skip(pi + 1), t@.skip(ti + j)));
                        } else {
                            assert(t@.skip(ti + j) =~= t@.skip(t@.len() as int));
                        }
                    }
                }
            }
            false
        },
    }
}

/// Whether any rule of the set matches the path.
pub open spec fn filter_matches(rules: Seq<Seq<PatTok>>, path: Seq<u8>) -> bool {
    exists|i: int| 0 <= i < rules.len() && glob_match(rules[i], path)
}

/// Whether a path or one of its directory ancestors matches the set:
/// such a path is invisible to comparison.
pub open spec fn path_excluded(rules: Seq<Seq<PatTok>>, p: Seq<u8>) -> bool {
    exists|k: int|
        #![trigger p.subrange(0, k)]
        1 <= k <= p.len() && (k == p.len() || p[k] == SLASH) && filter_matches(
            rules,
            p.subrange(0, k),
        )
}

/// A compiled, ordered set of path-matching rules.
pub struct RuleFilter {
    rules: Vec<Vec<PatTok>>,
}

impl View for RuleFilter {
    type V = Seq<Seq<PatTok>>;

    closed spec fn view(&self) -> Seq<Seq<PatTok>> {
        self.rules@.map_values(|r: Vec<PatTok>| r@)
    }
}

impl RuleFilter {
    /// Compiles a list of patterns; the index of the first invalid pattern
    /// is returned instead where one fails.
    pub fn new(patterns: &Vec<Vec<u8>>) -> (r: Result<RuleFilter, usize>)
        ensures
            match r {
                Ok(f) => {
                    &&& f@.len() == patterns@.len()
                    &&& forall|i: int|
                        0 <= i < patterns@.len() ==> compile_spec(patterns@[i]@) == Some(f@[i])
                },
                Err(i) => {
                    &&& 0 <= i < patterns@.len()
                    &&& compile_spec(patterns@[i as int]@) is None
                },
            },
    {
        let mut rules: Vec<Vec<PatTok>> = Vec::new();
        let mut i: usize = 0;
        while i < patterns.len()
            invariant
                i <= patterns.len(),
                rules@.len() == i,
                forall|j: int|
                    #![auto]
                    0 <= j < i ==> compile_spec(patterns@[j]@) == Some(rules@[j]@),
            decreases patterns.len() - i,
        {
            match compile_pattern(patterns[i].as_slice()) {
                Some(toks) => {
                    rules.push(toks);
                },
                None => {
                    return Err(i);
                },
            }
            i += 1;
        }
        let f = RuleFilter { rules };
        proof {
            assert(forall|i: int|
                0 <= i < f@.len() ==> f@[i] == f.rules@.map_values(|r: Vec<PatTok>| r@)[i]);
        }
        Ok(f)
    }

    /// Evaluates every rule against one path: true when any rule matches.
    /// The outcome does not depend on rule order; `_verbose` only governs
    /// diagnostic output in the surrounding tooling and has no effect here.
    pub fn test_all(&self, path: &[u8], _verbose: bool) -> (r: bool)
        ensures
            r == filter_matches(self@, path@),
    {
        let mut i: usize = 0;
        while i < self.rules.len()
            invariant
                i <= self.rules.len(),
                forall|j: int| 0 <= j < i ==> !glob_match(self@[j], path@),
            decreases self.rules.len() - i,
        {
            if glob_match_at(self.rules[i].as_slice(), 0, path, 0) {
                proof {
                    assert(self.rules@[i as int]@.skip(0) =~= self@[i as int]);
                    assert(path@.skip(0) =~= path@);
                }
                return true;
            }
            proof {
                assert(self.rules@[i as int]@.skip(0) =~= self@[i as int]);
                assert(path@.skip(0) =~= path@);
            }
            i += 1;
        }
        false
    }

    /// Whether a path is invisible to comparison: the path itself or one of
    /// its directory ancestors matches a rule.
    pub fn excludes(&self, path: &[u8]) -> (r: bool)
        ensures
            r == path_excluded(self@, path@),
    {
        let mut k: usize = 1;
        while k < path.len()
            invariant
                path.len() == 0 || 1 <= k <= path.len(),
                forall|j: int|
                    1 <= j < k ==> !(path@[j] == SLASH && filter_matches(
                        self@,
                        path@.subrange(0, j),
                    )),
            decreases path.len() - k,
        {
            if path[k] == SLASH {
                let prefix = vstd::slice::slice_subrange(path, 0, k);
                if self.test_all(prefix, false) {
                    assert(1 <= k < path@.len() && path@[k as int] == SLASH && filter_matches(
                        self@,
                        path@.subrange(0, k as int),
                    ));
                    return true;
                }
            }
            k += 1;
        }
        if path.len() > 0 {
            if self.test_all(path, false) {
                proof {
                    assert(path@.subrange(0, path@.len() as int) =~= path@);
                    let witness = path@.len() as int;
                    assert(1 <= witness <= path@.len() && (witness == path@.len()
                        || path@[witness] == SLASH) && filter_matches(
                        self@,
                        path@.subrange(0, witness),
                    ));
                    assert(path_excluded(self@, path@));
                }
                return true;
            }
        }
        proof {
            if path_excluded(self@, path@) {
                let j = choose|j: int|
                    1 <= j <= path@.len() && (j == path@.len() || path@[j] == SLASH)
                        && filter_matches(self@, path@.subrange(0, j));
                if j == path@.len() {
                    assert(path@.subrange(0, j) =~= path@);
                }
            }
        }
        false
    }
}

} // verus!
