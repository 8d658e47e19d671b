//! The user-supplied path filter: a comma-separated list of glob patterns,
//! compiled once and matched as a disjunction.

use crate::Error;
use globset::{Glob, GlobSet};
use vstd::prelude::*;
use vstd::utf8::encode_utf8;

verus! {

#[verifier::external_type_specification]
#[verifier::external_body]
pub struct ExGlob(Glob);

#[verifier::external_type_specification]
#[verifier::external_body]
pub struct ExGlobSet(GlobSet);

/// The pattern text a parsed glob was built from.
pub uninterp spec fn glob_pattern(g: Glob) -> Seq<char>;

/// The pattern texts a compiled glob set enforces.
pub uninterp spec fn globset_patterns(s: GlobSet) -> Seq<Seq<char>>;

/// Whether the glob library's parser accepts the pattern: a function of the
/// pattern text alone.
pub uninterp spec fn glob_parses(pattern: Seq<char>) -> bool;

/// Whether the glob library's matcher builder accepts the (parsed) pattern
/// — its compiled automaton fits the library's size limits — again a
/// function of the pattern text alone.
pub uninterp spec fn glob_builds(pattern: Seq<char>) -> bool;

/// What matching one glob pattern against one path returns: a function of
/// the pattern and the path bytes alone (a path that is not UTF-8 matches
/// nothing).
pub uninterp spec fn glob_match(pattern: Seq<char>, path: Seq<u8>) -> bool;

/// A pattern token the filter compiles end to end: its UTF-8 form short
/// enough for the matcher's 32-bit automaton identifiers, its syntax
/// accepted, and its automaton within the library's size limits.
pub open spec fn glob_compiles(pattern: Seq<char>) -> bool {
    &&& encode_utf8(pattern).len() < 0x1_0000_0000
    &&& glob_parses(pattern)
    &&& glob_builds(pattern)
}

/// Relies on `globset::Glob::new`: it parses the pattern it is given,
/// succeeding exactly when the syntax is accepted — a decision that depends
/// on the pattern alone.
#[verifier::external_body]
fn glob_new(pattern: &str) -> (r: Option<Glob>)
    ensures
        r is Some <==> glob_parses(pattern@),
        r matches Some(g) ==> glob_pattern(g) == pattern@,
{
    Glob::new(pattern).ok()
}

/// Relies on `globset::GlobSet::new`: it compiles the given globs into one
/// matcher, reporting an error (never panicking) when a compiled automaton
/// exceeds the library's size limits — a decision that depends on the
/// patterns alone. The length bound keeps the pattern within range of the
/// literal matcher's 32-bit automaton identifiers.
#[verifier::external_body]
fn glob_build(g: &Glob) -> (r: Option<GlobSet>)
    requires
        encode_utf8(glob_pattern(*g)).len() < 0x1_0000_0000,
    ensures
        r is Some <==> glob_builds(glob_pattern(*g)),
        r matches Some(s) ==> globset_patterns(s) == seq![glob_pattern(*g)],
{
    GlobSet::new([g.clone()]).ok()
}

/// Relies on `globset::GlobSet::is_match`: true exactly when some glob of
/// the set matches the path — a function of the set's patterns and the path
/// bytes. A path that is not UTF-8 matches nothing (this wrapper's stated
/// convention; the library takes a string path). On non-Unix targets the
/// library normalizes `\` to `/` first, so the named relation is fixed per
/// target.
#[verifier::external_body]
fn set_is_match(s: &GlobSet, path: &[u8]) -> (r: bool)
    ensures
        r == spec_filter_matches(globset_patterns(*s), path@),
        globset_patterns(*s).len() == 1 ==> r == glob_match(globset_patterns(*s)[0], path@),
{
    match core::str::from_utf8(path) {
        Ok(text) => s.is_match(text),
        Err(_) => false,
    }
}

/// Position of the first `sep` at or after `off`, if any.
pub open spec fn sep_pos(s: Seq<char>, sep: char, off: int) -> Option<int>
    decreases s.len() - off,
{
    if off < 0 || off >= s.len() {
        None
    } else if s[off] == sep {
        Some(off)
    } else {
        sep_pos(s, sep, off + 1)
    }
}

pub proof fn lemma_sep_pos(s: Seq<char>, sep: char, off: int)
    requires
        0 <= off,
    ensures
        match sep_pos(s, sep, off) {
            Some(p) => off <= p < s.len() && s[p] == sep && forall|j: int|
                off <= j < p ==> s[j] != sep,
            None => forall|j: int| off <= j < s.len() ==> s[j] != sep,
        },
    decreases s.len() - off,
{
    if 0 <= off && off < s.len() && s[off] != sep {
        lemma_sep_pos(s, sep, off + 1);
    }
}

/// The tokens of `s` delimited by `sep`, from `off` on. An empty suffix is
/// one empty token, as `str::split` has it.
pub open spec fn spec_split_from(s: Seq<char>, sep: char, off: int) -> Seq<Seq<char>>
    decreases s.len() - off,
    via spec_split_from_decreases
{
    match sep_pos(s, sep, off) {
        None => seq![s.subrange(off, s.len() as int)],
        Some(p) => seq![s.subrange(off, p)] + spec_split_from(s, sep, p + 1),
    }
}

#[via_fn]
proof fn spec_split_from_decreases(s: Seq<char>, sep: char, off: int) {
    if 0 <= off {
        lemma_sep_pos(s, sep, off);
    }
}

/// The comma-separated tokens of a filter string.
pub open spec fn spec_split(s: Seq<char>, sep: char) -> Seq<Seq<char>> {
    spec_split_from(s, sep, 0)
}

/// A path matches a filter when any of its patterns matches.
pub open spec fn spec_filter_matches(pats: Seq<Seq<char>>, path: Seq<u8>) -> bool {
    exists|i: int| 0 <= i < pats.len() && glob_match(pats[i], path)
}

/// A compiled filter: the pattern tokens and one single-glob matcher per
/// token.
#[derive(Debug)]
pub struct Filter {
    pub patterns: Vec<String>,
    pub sets: Vec<GlobSet>,
}

impl View for Filter {
    type V = Seq<Seq<char>>;

    open spec fn view(&self) -> Seq<Seq<char>> {
        self.patterns@.map_values(|s: String| s@)
    }
}

impl Filter {
    /// Each matcher enforces exactly its own token.
    pub open spec fn wf(&self) -> bool {
        &&& self.sets@.len() == self.patterns@.len()
        &&& forall|i: int|
            0 <= i < self.sets@.len() ==> globset_patterns(#[trigger] self.sets@[i]) == seq![
                self.patterns@[i]@,
            ]
    }

    /// Compile a comma-separated filter string.
    ///
    /// Succeeds exactly when every comma-delimited token compiles as a
    /// glob; the filter then holds the tokens in order. Otherwise the
    /// first token the glob library rejects fails the whole filter as
    /// `InvalidPattern`, carrying that token.
    pub fn new(filter: &str) -> (r: Result<Filter, Error>)
        ensures
            match r {
                Ok(f) => {
                    &&& f.wf()
                    &&& f@ == spec_split(filter@, ',')
                    &&& forall|i: int| 0 <= i < f@.len() ==> glob_compiles(#[trigger] f@[i])
                },
                Err(e) => ({
                    let toks = spec_split(filter@, ',');
                    e matches Error::InvalidPattern { token } && exists|i: int|
                        0 <= i < toks.len() && !glob_compiles(#[trigger] toks[i]) && token@
                            == toks[i] && (forall|j: int|
                            0 <= j < i ==> glob_compiles(#[trigger] toks[j]))
                }),
            },
    {
        let ghost gs = filter@;
        let ghost toks = spec_split(gs, ',');
        let n = filter.unicode_len();
        let mut patterns: Vec<String> = Vec::new();
        let mut sets: Vec<GlobSet> = Vec::new();
        let mut start: usize = 0;
        let mut i: usize = 0;
        loop
            invariant
                gs == filter@,
                toks == spec_split(gs, ','),
                gs.len() == n,
                0 <= start <= i <= n,
                patterns@.len() == sets@.len(),
                forall|k: int|
                    0 <= k < sets@.len() ==> globset_patterns(#[trigger] sets@[k]) == seq![
                        patterns@[k]@,
                    ],
                forall|k: int|
                    0 <= k < patterns@.len() ==> glob_compiles(#[trigger] patterns@[k]@),
                toks == patterns@.map_values(|s: String| s@) + spec_split_from(
                    gs,
                    ',',
                    start as int,
                ),
                sep_pos(gs, ',', start as int) == sep_pos(gs, ',', i as int),
                forall|j: int| start <= j < i ==> gs[j] != ',',
            decreases n - i,
        {
            let at_end = i == n;
            if at_end || filter.get_char(i) == ',' {
                proof {
                    lemma_sep_pos(gs, ',', i as int);
                    if at_end {
                        assert(sep_pos(gs, ',', start as int) is None);
                        assert(spec_split_from(gs, ',', start as int) == seq![
                            gs.subrange(start as int, gs.len() as int),
                        ]);
                    } else {
                        assert(sep_pos(gs, ',', start as int) == Some(i as int));
                        assert(spec_split_from(gs, ',', start as int) == seq![
                            gs.subrange(start as int, i as int),
                        ] + spec_split_from(gs, ',', i + 1));
                    }
                }
                let token = filter.substring_char(start, i).to_owned();
                let ghost np = patterns@.len() as int;
                proof {
                    assert(toks[np] == token@);
                    assert(np < toks.len());
                    assert(forall|j: int| 0 <= j < np ==> glob_compiles(#[trigger] toks[j]));
                }
                let token_bytes = token.as_str().as_bytes().len();
                proof {
                    assert(token_bytes == encode_utf8(token@).len());
                }
                if !((token_bytes as u64) < 0x1_0000_0000u64) {
                    proof {
                        assert(!glob_compiles(toks[np]));
                    }
                    return Err(Error::InvalidPattern { token });
                }
                proof {
                    assert(encode_utf8(token@).len() < 0x1_0000_0000);
                }
                let g = match glob_new(token.as_str()) {
                    Some(g) => g,
                    None => {
                        proof {
                            assert(!glob_compiles(toks[np]));
                        }
                        return Err(Error::InvalidPattern { token });
                    },
                };
                proof {
                    assert(glob_pattern(g) == token@);
                }
                let set = match glob_build(&g) {
                    Some(s) => s,
                    None => {
                        proof {
                            assert(!glob_compiles(toks[np]));
                        }
                        return Err(Error::InvalidPattern { token });
                    },
                };
                proof {
                    assert(glob_compiles(token@));
                }
                let ghost old_pats = patterns@.map_values(|s: String| s@);
                patterns.push(token);
                sets.push(set);
                proof {
                    assert(patterns@.map_values(|s: String| s@) =~= old_pats.push(toks[np]));
                    assert(forall|k: int|
                        0 <= k < patterns@.len() ==> glob_compiles(#[trigger] patterns@[k]@));
                }
                if at_end {
                    proof {
                        assert(old_pats + seq![toks[np]] =~= patterns@.map_values(
                            |s: String| s@,
                        ));
                        assert(toks =~= patterns@.map_values(|s: String| s@));
                    }
                    let f = Filter { patterns, sets };
                    return Ok(f);
                }
                proof {
                    assert(old_pats + (seq![toks[np]] + spec_split_from(gs, ',', i + 1))
                        =~= patterns@.map_values(|s: String| s@) + spec_split_from(gs, ',', i + 1));
                }
                start = i + 1;
                i = i + 1;
                proof {
                    assert(sep_pos(gs, ',', start as int) == sep_pos(gs, ',', i as int));
                }
            } else {
                i = i + 1;
                proof {
                    assert(sep_pos(gs, ',', i - 1) == sep_pos(gs, ',', i as int));
                }
            }
        }
    }

    /// Whether any pattern of this filter matches the given path.
    pub fn is_match(&self, path: &[u8]) -> (r: bool)
        requires
            self.wf(),
        ensures
            r == spec_filter_matches(self@, path@),
    {
        let mut i: usize = 0;
        while i < self.sets.len()
            invariant
                0 <= i <= self.sets@.len(),
                self.wf(),
                forall|k: int| 0 <= k < i ==> !glob_match(self@[k], path@),
            decreases self.sets@.len() - i,
        {
            let hit = set_is_match(&self.sets[i], path);
            proof {
                let pats = globset_patterns(self.sets@[i as int]);
                assert(pats == seq![self@[i as int]]);
                assert(pats[0] == self@[i as int]);
                if hit {
                    let k = choose|k: int| 0 <= k < pats.len() && glob_match(pats[k], path@);
                    assert(k == 0);
                    assert(glob_match(self@[i as int], path@));
                } else {
                    assert(!glob_match(pats[0], path@));
                }
            }
            if hit {
                return true;
            }
            i = i + 1;
        }
        false
    }
}

} // verus!
