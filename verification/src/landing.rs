//! Landing detection: which release channels contain a merged pull request's
//! merge commit.
//!
//! A configured pattern maps a base branch to one or more channel-name
//! templates; matchers are exact strings, shell-style wildcards, or regexes
//! with capture-group substitution.  For each merged pull request the engine
//! resolves candidate channels, subtracts the channels already recorded, and
//! asks an external ancestry collaborator — one call per pull request — which
//! of the remaining candidates contain the merge commit.  The answers are
//! folded back in here: `landed_in` only grows, and a `Landed` event is
//! emitted exactly when something new landed.

use vstd::prelude::*;

use crate::string_set::{clone_string, StringSet};
use crate::text::str_eq;
use crate::time::DateTime;
use crate::types::{EntityMap, Event, Keyed, PullAction, PullRequest};

verus! {

/// Whether the regex crate accepts `pat` as a pattern.  The pattern alone
/// determines this.
pub uninterp spec fn regex_valid(pat: Seq<char>) -> bool;

/// The byte span of the leftmost match of `pat` in `text`, if any.  Pattern
/// and text alone determine this.
pub uninterp spec fn regex_found(pat: Seq<char>, text: Seq<char>) -> Option<(usize, usize)>;

/// `text` with the leftmost match of `pat` replaced by `template`, capture
/// groups substituted.  The three arguments alone determine this.
pub uninterp spec fn regex_replaced(pat: Seq<char>, text: Seq<char>, template: Seq<char>) -> Seq<
    char,
>;

/// Whether the glob-style pattern `pat` (`*` and `?` wildcards) applies to
/// `text`.  Pattern and text alone determine this.
pub uninterp spec fn wild_matched(pat: Seq<char>, text: Seq<char>) -> bool;

/// Relies on regex::Regex::new: whether the pattern compiles.
#[verifier::external_body]
fn regex_is_valid(pat: &str) -> (r: bool)
    ensures
        r == regex_valid(pat@),
{
    regex::Regex::new(pat).is_ok()
}

/// Relies on regex::Regex::find_at with start 0: the byte span of the
/// leftmost match.
#[verifier::external_body]
fn regex_find(pat: &str, text: &str) -> (r: Option<(usize, usize)>)
    requires
        regex_valid(pat@),
    ensures
        r == regex_found(pat@, text@),
{
    let re = regex::Regex::new(pat).unwrap();
    re.find_at(text, 0).map(|m| (m.start(), m.end()))
}

/// Relies on regex::Regex::replace with a string template: the leftmost match
/// is replaced, capture groups substituted; without a match the text comes
/// back unchanged, as the crate documents.
#[verifier::external_body]
fn regex_replace(pat: &str, text: &str, template: &str) -> (r: String)
    requires
        regex_valid(pat@),
    ensures
        r@ == regex_replaced(pat@, text@, template@),
        regex_found(pat@, text@) is None ==> r@ == text@,
{
    let re = regex::Regex::new(pat).unwrap();
    re.replace(text, template).into_owned()
}

/// Relies on wildmatch::WildMatch::new and WildMatchPattern::matches: whether
/// the glob pattern applies to the text.
#[verifier::external_body]
fn wild_match(pat: &str, text: &str) -> (r: bool)
    ensures
        r == wild_matched(pat@, text@),
{
    wildmatch::WildMatch::new(pat).matches(text)
}

/// The leftmost regex match exists and runs to the end of the text: the
/// condition under which a regex pattern selects a base branch.
pub open spec fn regex_selects(pat: Seq<char>, text: Seq<char>) -> bool {
    match regex_found(pat, text) {
        Some(span) => span.1 == vstd::utf8::encode_utf8(text).len(),
        None => false,
    }
}

/// A base-branch matcher.
pub enum Matcher {
    Exact(String),
    Wildcard(String),
    Regex(String),
}

/// A regex matcher must hold a valid pattern; the other kinds always do.
pub open spec fn matcher_wf(m: Matcher) -> bool {
    match m {
        Matcher::Regex(p) => regex_valid(p@),
        _ => true,
    }
}

/// Whether the matcher selects the base branch.
pub open spec fn matcher_applies(m: Matcher, base: Seq<char>) -> bool {
    match m {
        Matcher::Exact(s) => s@ == base,
        Matcher::Wildcard(s) => wild_matched(s@, base),
        Matcher::Regex(p) => regex_selects(p@, base),
    }
}

/// The channel name a template yields for a base branch: for a regex
/// matcher, the template is substituted into the base via the match; other
/// matchers use the template as written.
pub open spec fn channel_name(m: Matcher, base: Seq<char>, template: String) -> Seq<char> {
    match m {
        Matcher::Regex(p) => regex_replaced(p@, base, template@),
        _ => template@,
    }
}

/// Decides [`matcher_applies`].
fn matcher_applies_exec(m: &Matcher, base: &str) -> (r: bool)
    requires
        matcher_wf(*m),
    ensures
        r == matcher_applies(*m, base@),
{
    match m {
        Matcher::Exact(s) => str_eq(s.as_str(), base),
        Matcher::Wildcard(s) => wild_match(s.as_str(), base),
        Matcher::Regex(p) => {
            let bytes = base.as_bytes();
            let blen = bytes.len();
            proof {
                vstd::slice::axiom_spec_len(bytes);
                assert(blen == vstd::utf8::encode_utf8(base@).len());
            }
            match regex_find(p.as_str(), base) {
                Some(span) => span.1 == blen,
                None => false,
            }
        },
    }
}

/// Computes [`channel_name`].
fn channel_name_exec(m: &Matcher, base: &str, template: &String) -> (r: String)
    requires
        matcher_wf(*m),
    ensures
        r@ == channel_name(*m, base@, *template),
{
    match m {
        Matcher::Regex(p) => regex_replace(p.as_str(), base, template.as_str()),
        _ => clone_string(template),
    }
}

/// One configured rule: a matcher and the channel-name templates it yields.
pub struct ChannelPattern {
    pub matcher: Matcher,
    pub channels: Vec<String>,
}

/// The ordered channel-pattern configuration.
pub struct ChannelPatterns {
    patterns: Vec<ChannelPattern>,
}

/// Every channel name any rule yields for this base branch.
pub open spec fn channels_of(ps: Seq<ChannelPattern>, base: Seq<char>) -> Set<Seq<char>> {
    Set::new(
        |k: Seq<char>|
            exists|i: int, j: int|
                0 <= i < ps.len() && matcher_applies(ps[i].matcher, base) && 0 <= j
                    < ps[i].channels@.len() && k == channel_name(
                    ps[i].matcher,
                    base,
                    #[trigger] ps[i].channels@[j],
                ),
    )
}

/// A configuration piece parses when its trimmed text has a colon and the
/// part before the colon is a valid regex pattern.
pub open spec fn piece_ok(piece: Seq<char>) -> bool {
    match crate::text::split_first(crate::text::trim_spec(piece), ':') {
        Some(q) => regex_valid(q.0),
        None => false,
    }
}

/// The rule a configuration piece denotes: a regex matcher from the part
/// before the colon, templates from the whitespace-separated words after it.
pub open spec fn pattern_represents(p: ChannelPattern, piece: Seq<char>) -> bool {
    match crate::text::split_first(crate::text::trim_spec(piece), ':') {
        Some(q) => match p.matcher {
            Matcher::Regex(rx) => rx@ == q.0 && p.channels@.map_values(|c: String| c@)
                == crate::text::split_ws(q.1),
            _ => false,
        },
        None => false,
    }
}

/// A configuration string that does not parse.
#[derive(Clone, Copy, PartialEq, Eq, Structural, Debug)]
pub struct PatternError;

impl ChannelPatterns {
    /// The configured rules, in order.
    pub closed spec fn spec_patterns(&self) -> Seq<ChannelPattern> {
        self.patterns@
    }

    #[verifier::type_invariant]
    spec fn valid(&self) -> bool {
        forall|i: int|
            0 <= i < self.patterns@.len() ==> matcher_wf(#[trigger] self.patterns@[i].matcher)
    }

    /// No rules: no base branch maps to any channel.
    pub fn new() -> (r: ChannelPatterns)
        ensures
            r.spec_patterns() == Seq::<ChannelPattern>::empty(),
    {
        ChannelPatterns { patterns: Vec::new() }
    }

    /// Appends an exact-string rule.
    pub fn push_exact(&mut self, base: String, channels: Vec<String>)
        ensures
            final(self).spec_patterns() == old(self).spec_patterns().push(
                ChannelPattern { matcher: Matcher::Exact(base), channels },
            ),
    {
        proof {
            use_type_invariant(&*self);
        }
        let mut patterns: Vec<ChannelPattern> = Vec::new();
        core::mem::swap(&mut patterns, &mut self.patterns);
        patterns.push(ChannelPattern { matcher: Matcher::Exact(base), channels });
        self.patterns = patterns;
    }

    /// Appends a wildcard rule.
    pub fn push_wildcard(&mut self, pattern: String, channels: Vec<String>)
        ensures
            final(self).spec_patterns() == old(self).spec_patterns().push(
                ChannelPattern { matcher: Matcher::Wildcard(pattern), channels },
            ),
    {
        proof {
            use_type_invariant(&*self);
        }
        let mut patterns: Vec<ChannelPattern> = Vec::new();
        core::mem::swap(&mut patterns, &mut self.patterns);
        patterns.push(ChannelPattern { matcher: Matcher::Wildcard(pattern), channels });
        self.patterns = patterns;
    }

    /// Appends a regex rule; refused exactly when the pattern does not
    /// compile.
    pub fn push_regex(&mut self, pattern: String, channels: Vec<String>) -> (ok: bool)
        ensures
            ok == regex_valid(pattern@),
            ok ==> final(self).spec_patterns() == old(self).spec_patterns().push(
                ChannelPattern { matcher: Matcher::Regex(pattern), channels },
            ),
            !ok ==> final(self).spec_patterns() == old(self).spec_patterns(),
    {
        proof {
            use_type_invariant(&*self);
        }
        if !regex_is_valid(pattern.as_str()) {
            return false;
        }
        let mut patterns: Vec<ChannelPattern> = Vec::new();
        core::mem::swap(&mut patterns, &mut self.patterns);
        patterns.push(ChannelPattern { matcher: Matcher::Regex(pattern), channels });
        self.patterns = patterns;
        true
    }

    /// Parses the configuration syntax: comma-separated rules, each a regex
    /// pattern, a colon, and whitespace-separated channel templates.  Parsing
    /// succeeds exactly when every piece is well-formed.
    pub fn parse(s: &str) -> (r: Result<ChannelPatterns, PatternError>)
        ensures
            ({
                let pieces = crate::text::split_on(s@, ',');
                match r {
                    Ok(cp) => (forall|i: int| 0 <= i < pieces.len() ==> piece_ok(#[trigger] pieces[i]))
                        && cp.spec_patterns().len() == pieces.len() && (forall|i: int|
                        0 <= i < pieces.len() ==> pattern_represents(
                            #[trigger] cp.spec_patterns()[i],
                            pieces[i],
                        )),
                    Err(_) => exists|i: int| 0 <= i < pieces.len() && !piece_ok(#[trigger] pieces[i]),
                }
            }),
    {
        let pieces = crate::text::split_on_str(s, ',');
        let ghost pieces_spec: Seq<Seq<char>> = crate::text::split_on(s@, ',');
        let mut patterns: Vec<ChannelPattern> = Vec::new();
        let mut i: usize = 0;
        while i < pieces.len()
            invariant
                0 <= i <= pieces@.len(),
                pieces_spec == crate::text::split_on(s@, ','),
                pieces@.map_values(|x: String| x@) == pieces_spec,
                patterns@.len() == i,
                forall|k: int| 0 <= k < i ==> piece_ok(#[trigger] pieces_spec[k]),
                forall|k: int|
                    0 <= k < i ==> pattern_represents(#[trigger] patterns@[k], pieces_spec[k]),
                forall|k: int| 0 <= k < i ==> matcher_wf(#[trigger] patterns@[k].matcher),
            decreases pieces@.len() - i,
        {
            proof {
                assert(pieces@[i as int]@ == pieces_spec[i as int]);
            }
            let trimmed = crate::text::trim_str(pieces[i].as_str());
            proof {
                assert(trimmed@ == crate::text::trim_spec(pieces_spec[i as int]));
                assert(pieces_spec.len() == pieces@.len());
            }
            match crate::text::split_first_str(trimmed.as_str(), ':') {
                None => {
                    proof {
                        assert(crate::text::split_on(s@, ',')[i as int] == pieces_spec[i as int]);
                        assert(!piece_ok(crate::text::split_on(s@, ',')[i as int]));
                        assert(0 <= (i as int) && (i as int) < crate::text::split_on(s@, ',').len());
                        assert(exists|j: int|
                            0 <= j < crate::text::split_on(s@, ',').len() && !piece_ok(
                                #[trigger] crate::text::split_on(s@, ',')[j],
                            ));
                    }
                    return Err(PatternError);
                },
                Some((pat, rest)) => {
                    if !regex_is_valid(pat.as_str()) {
                        proof {
                            assert(crate::text::split_on(s@, ',')[i as int] == pieces_spec[
                                i as int
                            ]);
                            assert(!piece_ok(crate::text::split_on(s@, ',')[i as int]));
                            assert(0 <= (i as int) && (i as int) < crate::text::split_on(s@, ',').len());
                            assert(exists|j: int|
                                0 <= j < crate::text::split_on(s@, ',').len() && !piece_ok(
                                    #[trigger] crate::text::split_on(s@, ',')[j],
                                ));
                        }
                        return Err(PatternError);
                    }
                    let channels = crate::text::split_ws_str(rest.as_str());
                    proof {
                        assert(piece_ok(pieces_spec[i as int]));
                    }
                    patterns.push(ChannelPattern { matcher: Matcher::Regex(pat), channels });
                },
            }
            i = i + 1;
        }
        Ok(ChannelPatterns { patterns })
    }

    /// Every channel name the configuration yields for this base branch.
    pub fn find_channels(&self, base: &str) -> (r: StringSet)
        ensures
            r@ == channels_of(self.spec_patterns(), base@),
    {
        proof {
            use_type_invariant(self);
        }
        let mut r = StringSet::new();
        let mut i: usize = 0;
        proof {
            assert(r@ =~= channels_of(self.spec_patterns().take(0), base@)) by {
                assert forall|k: Seq<char>|
                    !channels_of(self.spec_patterns().take(0), base@).contains(k) by {
                    if channels_of(self.spec_patterns().take(0), base@).contains(k) {
                        let (a, b): (int, int) = choose|a: int, b: int|
                            0 <= a < self.spec_patterns().take(0).len() && matcher_applies(
                                self.spec_patterns().take(0)[a].matcher,
                                base@,
                            ) && 0 <= b < self.spec_patterns().take(0)[a].channels@.len() && k
                                == channel_name(
                                self.spec_patterns().take(0)[a].matcher,
                                base@,
                                #[trigger] self.spec_patterns().take(0)[a].channels@[b],
                            );
                    }
                }
            }
        }
        while i < self.patterns.len()
            invariant
                0 <= i <= self.patterns@.len(),
                forall|k: int|
                    0 <= k < self.patterns@.len() ==> matcher_wf(
                        #[trigger] self.patterns@[k].matcher,
                    ),
                r@ == channels_of(self.spec_patterns().take(i as int), base@),
            decreases self.patterns@.len() - i,
        {
            let applies = matcher_applies_exec(&self.patterns[i].matcher, base);
            if applies {
                let mut j: usize = 0;
                while j < self.patterns[i].channels.len()
                    invariant
                        0 <= i < self.patterns@.len(),
                        0 <= j <= self.patterns@[i as int].channels@.len(),
                        forall|k: int|
                            0 <= k < self.patterns@.len() ==> matcher_wf(
                                #[trigger] self.patterns@[k].matcher,
                            ),
                        matcher_applies(self.patterns@[i as int].matcher, base@),
                        r@ == channels_of(self.spec_patterns().take(i as int), base@).union(
                            names_upto(self.patterns@[i as int], base@, j as int),
                        ),
                    decreases self.patterns@[i as int].channels@.len() - j,
                {
                    let name = channel_name_exec(
                        &self.patterns[i].matcher,
                        base,
                        &self.patterns[i].channels[j],
                    );
                    let ghost r_old: Set<Seq<char>> = r@;
                    r.insert(name);
                    proof {
                        let p = self.patterns@[i as int];
                        assert(names_upto(p, base@, j + 1) =~= names_upto(p, base@, j as int).insert(
                            channel_name(p.matcher, base@, p.channels@[j as int]),
                        )) by {
                            assert forall|k: Seq<char>| names_upto(p, base@, j + 1).contains(k)
                                implies names_upto(p, base@, j as int).insert(
                                channel_name(p.matcher, base@, p.channels@[j as int]),
                            ).contains(k) by {
                                let b = choose|b: int|
                                    0 <= b < j + 1 && k == channel_name(
                                        p.matcher,
                                        base@,
                                        #[trigger] p.channels@[b],
                                    );
                                if b < j {
                                    assert(names_upto(p, base@, j as int).contains(k));
                                }
                            }
                            assert forall|k: Seq<char>|
                                names_upto(p, base@, j as int).insert(
                                    channel_name(p.matcher, base@, p.channels@[j as int]),
                                ).contains(k) implies names_upto(p, base@, j + 1).contains(k) by {
                                if names_upto(p, base@, j as int).contains(k) {
                                    let b = choose|b: int|
                                        0 <= b < j && k == channel_name(
                                            p.matcher,
                                            base@,
                                            #[trigger] p.channels@[b],
                                        );
                                    assert(0 <= b < j + 1 && k == channel_name(
                                        p.matcher,
                                        base@,
                                        p.channels@[b],
                                    ));
                                } else {
                                    assert(k == channel_name(
                                        p.matcher,
                                        base@,
                                        p.channels@[j as int],
                                    ));
                                }
                            }
                        }
                        assert(r@ =~= channels_of(self.spec_patterns().take(i as int), base@).union(
                            names_upto(p, base@, j + 1),
                        ));
                    }
                    j = j + 1;
                }
                proof {
                    lemma_channels_take_step(self.spec_patterns(), base@, i as int);
                    let p = self.patterns@[i as int];
                    assert(names_upto(p, base@, p.channels@.len() as int) =~= names_of(p, base@));
                    assert(r@ =~= channels_of(self.spec_patterns().take(i + 1), base@));
                }
            } else {
                proof {
                    lemma_channels_take_step(self.spec_patterns(), base@, i as int);
                    assert(r@ =~= channels_of(self.spec_patterns().take(i + 1), base@));
                }
            }
            i = i + 1;
        }
        proof {
            assert(self.spec_patterns().take(self.patterns@.len() as int) =~= self.spec_patterns());
        }
        r
    }
}

/// The names the first `n` templates of one rule yield.
pub open spec fn names_upto(p: ChannelPattern, base: Seq<char>, n: int) -> Set<Seq<char>> {
    Set::new(
        |k: Seq<char>|
            exists|j: int|
                0 <= j < n && j < p.channels@.len() && k == channel_name(
                    p.matcher,
                    base,
                    #[trigger] p.channels@[j],
                ),
    )
}

/// The names all templates of one rule yield.
pub open spec fn names_of(p: ChannelPattern, base: Seq<char>) -> Set<Seq<char>> {
    names_upto(p, base, p.channels@.len() as int)
}

/// One pull request's pending ancestry question: which of the channels in
/// `to_check` contain `merge_commit`.
pub struct LandingCheck {
    pub id: String,
    pub merge_commit: String,
    pub to_check: Vec<String>,
}

/// A pull request needs an ancestry check when it is merged and some
/// candidate channel is not yet recorded in `landed_in`.
pub open spec fn needs_check(pr: PullRequest, ps: Seq<ChannelPattern>) -> bool {
    pr.merge_commit is Some && channels_of(ps, pr.base_ref@).difference(pr.landed_in@) != Set::<
        Seq<char>,
    >::empty()
}

/// What a produced check certifies about the stored pull request it names.
pub open spec fn check_valid(
    c: LandingCheck,
    m: Map<Seq<char>, PullRequest>,
    ps: Seq<ChannelPattern>,
) -> bool {
    &&& m.dom().contains(c.id@)
    &&& match m[c.id@].merge_commit {
        Some(mc) => mc@ == c.merge_commit@,
        None => false,
    }
    &&& c.to_check@.map_values(|x: String| x@).to_set() == channels_of(
        ps,
        m[c.id@].base_ref@,
    ).difference(m[c.id@].landed_in@)
    &&& c.to_check@.len() > 0
}

/// The pull requests that need an ancestry check, each with the channels
/// still to be checked: every merged pull request with an unresolved
/// candidate appears exactly once, with its candidate channels minus those
/// already recorded.
pub fn landing_candidates(prs: &EntityMap<PullRequest>, patterns: &ChannelPatterns) -> (r: Vec<
    LandingCheck,
>)
    requires
        prs.wf(),
    ensures
        forall|j: int|
            0 <= j < r@.len() ==> check_valid(#[trigger] r@[j], prs@, patterns.spec_patterns()),
        forall|i: int|
            0 <= i < prs.entries_seq().len() && needs_check(
                #[trigger] prs.entries_seq()[i],
                patterns.spec_patterns(),
            ) ==> exists|j: int|
                0 <= j < r@.len() && #[trigger] r@[j].id@ == prs.entries_seq()[i].id@,
        forall|a: int, b: int| 0 <= a < b < r@.len() ==> r@[a].id@ != r@[b].id@,
{
    proof {
        prs.lemma_entries();
    }
    let mut r: Vec<LandingCheck> = Vec::new();
    let mut i: usize = 0;
    let n = prs.len();
    while i < n
        invariant
            prs.wf(),
            n == prs.entries_seq().len(),
            0 <= i <= n,
            forall|j: int|
                0 <= j < r@.len() ==> check_valid(#[trigger] r@[j], prs@, patterns.spec_patterns()),
            forall|j: int|
                0 <= j < r@.len() ==> exists|i2: int|
                    0 <= i2 < i && #[trigger] r@[j].id@ == prs.entries_seq()[i2].id@,
            forall|i2: int|
                0 <= i2 < i && needs_check(
                    #[trigger] prs.entries_seq()[i2],
                    patterns.spec_patterns(),
                ) ==> exists|j: int|
                    0 <= j < r@.len() && #[trigger] r@[j].id@ == prs.entries_seq()[i2].id@,
            forall|a: int, b: int| 0 <= a < b < r@.len() ==> r@[a].id@ != r@[b].id@,
        decreases n - i,
    {
        proof {
            prs.lemma_entries();
        }
        let pr = prs.at(i);
        let ghost entry: PullRequest = prs.entries_seq()[i as int];
        match &pr.merge_commit {
            None => {
                proof {
                    assert(!needs_check(entry, patterns.spec_patterns()));
                }
            },
            Some(mc) => {
                let candidates = patterns.find_channels(pr.base_ref.as_str());
                let to_check = candidates.difference(&pr.landed_in);
                let ghost diff: Set<Seq<char>> = channels_of(
                    patterns.spec_patterns(),
                    entry.base_ref@,
                ).difference(entry.landed_in@);
                if to_check.len() > 0 {
                    let ghost r_old: Seq<LandingCheck> = r@;
                    let c = LandingCheck {
                        id: clone_string(&pr.id),
                        merge_commit: clone_string(mc),
                        to_check,
                    };
                    proof {
                        assert(prs.entries_seq()[i as int].key_spec() == entry.id@);
                        assert(prs@.dom().contains(prs.entries_seq()[i as int].key_spec()) && prs@[
                            prs.entries_seq()[i as int].key_spec()
                        ] == prs.entries_seq()[i as int]);
                        assert(prs@[entry.id@] == entry);
                        assert(check_valid(c, prs@, patterns.spec_patterns()));
                        assert forall|j: int| 0 <= j < r_old.len() implies r_old[j].id@
                            != entry.id@ by {
                            let i2 = choose|i2: int|
                                0 <= i2 < i && #[trigger] r_old[j].id@
                                    == prs.entries_seq()[i2].id@;
                            assert(prs.entries_seq()[i2].key_spec()
                                != prs.entries_seq()[i as int].key_spec());
                        }
                    }
                    r.push(c);
                    proof {
                        assert forall|i2: int|
                            0 <= i2 < i + 1 && needs_check(
                                #[trigger] prs.entries_seq()[i2],
                                patterns.spec_patterns(),
                            ) implies exists|j: int|
                            0 <= j < r@.len() && #[trigger] r@[j].id@
                                == prs.entries_seq()[i2].id@ by {
                            if i2 == i {
                                assert(r@[r_old.len() as int].id@ == prs.entries_seq()[i2].id@);
                            } else {
                                let j0 = choose|j: int|
                                    0 <= j < r_old.len() && #[trigger] r_old[j].id@
                                        == prs.entries_seq()[i2].id@;
                                assert(r@[j0].id@ == prs.entries_seq()[i2].id@);
                            }
                        }
                    }
                } else {
                    proof {
                        assert(to_check@.map_values(|x: String| x@).to_set() =~= Set::<
                            Seq<char>,
                        >::empty());
                        assert(diff == Set::<Seq<char>>::empty());
                        assert(!needs_check(entry, patterns.spec_patterns()));
                    }
                }
            },
        }
        i = i + 1;
    }
    r
}

/// Folds one pull request's ancestry answer back in: every reported channel
/// joins `landed_in` (a union, never a removal), and one `Landed` event
/// stamped `now` carries exactly the newly seen channels.  With nothing new,
/// nothing changes and no event is emitted; an identifier that is not stored
/// changes nothing.
pub fn record_landing(
    prs: &mut EntityMap<PullRequest>,
    id: &String,
    landed: Vec<String>,
    now: DateTime,
) -> (r: Option<Event<PullAction>>)
    requires
        old(prs).wf(),
    ensures
        final(prs).wf(),
        !old(prs)@.dom().contains(id@) ==> *final(prs) == *old(prs) && r is None,
        old(prs)@.dom().contains(id@) ==> ({
            let pr = old(prs)@[id@];
            let fresh = landed@.filter(|c: String| !pr.landed_in@.contains(c@));
            &&& final(prs)@.dom() == old(prs)@.dom()
            &&& forall|k: Seq<char>|
                k != id@ && old(prs)@.dom().contains(k) ==> final(prs)@[k] == old(prs)@[k]
            &&& final(prs)@[id@].landed_in@ == pr.landed_in@.union(
                landed@.map_values(|c: String| c@).to_set(),
            )
            &&& final(prs)@[id@] == (PullRequest { landed_in: final(prs)@[id@].landed_in, ..pr })
            &&& match r {
                Some(ev) => fresh.len() > 0 && ev.0 == now && ev.1 == *id && (match ev.2 {
                    PullAction::Landed(chans) => chans@ == fresh,
                    _ => false,
                }),
                None => fresh.len() == 0 && final(prs)@[id@].landed_in == pr.landed_in,
            }
        }),
{
    let idx = prs.index_of(id.as_str());
    match idx {
        None => {
            proof {
                prs.lemma_entries();
                if prs@.dom().contains(id@) {
                    let j = choose|j: int|
                        0 <= j < prs.entries_seq().len()
                            && #[trigger] prs.entries_seq()[j].key_spec() == id@;
                }
            }
            None
        },
        Some(i) => {
            proof {
                prs.lemma_entries();
            }
            let ghost m0: Map<Seq<char>, PullRequest> = prs@;
            let mut pr = prs.remove_at(i);
            proof {
                assert(m0[id@] == pr);
            }
            let ghost pr0: PullRequest = pr;
            let ghost pred = |c: String| !pr0.landed_in@.contains(c@);
            // First pass: which reported channels are new.
            let mut fresh: Vec<String> = Vec::new();
            let mut j: usize = 0;
            while j < landed.len()
                invariant
                    0 <= j <= landed@.len(),
                    pred == (|c: String| !pr0.landed_in@.contains(c@)),
                    pr == pr0,
                    fresh@ == landed@.take(j as int).filter(pred),
                decreases landed@.len() - j,
            {
                let is_new = !pr.landed_in.contains(landed[j].as_str());
                proof {
                    reveal(Seq::filter);
                    assert(landed@.take(j + 1).drop_last() =~= landed@.take(j as int));
                    assert(landed@.take(j + 1).last() == landed@[j as int]);
                }
                if is_new {
                    fresh.push(clone_string(&landed[j]));
                }
                j = j + 1;
            }
            proof {
                assert(landed@.take(landed@.len() as int) =~= landed@);
            }
            // Second pass: union the new channels into the stored set.
            let mut j2: usize = 0;
            while j2 < fresh.len()
                invariant
                    0 <= j2 <= fresh@.len(),
                    fresh@ == landed@.filter(pred),
                    pred == (|c: String| !pr0.landed_in@.contains(c@)),
                    pr == (PullRequest { landed_in: pr.landed_in, ..pr0 }),
                    j2 == 0 ==> pr == pr0,
                    pr.landed_in@ == pr0.landed_in@.union(
                        fresh@.take(j2 as int).map_values(|c: String| c@).to_set(),
                    ),
                decreases fresh@.len() - j2,
            {
                let ghost before: Set<Seq<char>> = pr.landed_in@;
                pr.landed_in.insert(clone_string(&fresh[j2]));
                proof {
                    assert(fresh@.take(j2 + 1).map_values(|c: String| c@).to_set() =~= fresh@.take(
                        j2 as int,
                    ).map_values(|c: String| c@).to_set().insert(fresh@[j2 as int]@)) by {
                        let pre = fresh@.take(j2 as int).map_values(|c: String| c@);
                        let post = fresh@.take(j2 + 1).map_values(|c: String| c@);
                        assert forall|k: Seq<char>| post.to_set().contains(k) implies
                            pre.to_set().insert(fresh@[j2 as int]@).contains(k) by {
                            let a = choose|a: int| 0 <= a < post.len() && post[a] == k;
                            if a < j2 {
                                assert(pre[a] == k);
                                assert(pre.contains(k));
                            }
                        }
                        assert forall|k: Seq<char>|
                            pre.to_set().insert(fresh@[j2 as int]@).contains(k) implies
                            post.to_set().contains(k) by {
                            if pre.to_set().contains(k) {
                                let a = choose|a: int| 0 <= a < pre.len() && pre[a] == k;
                                assert(post[a] == k);
                                assert(post.contains(k));
                            } else {
                                assert(post[j2 as int] == k);
                                assert(post.contains(k));
                            }
                        }
                    }
                    assert(pr.landed_in@ =~= pr0.landed_in@.union(
                        fresh@.take(j2 + 1).map_values(|c: String| c@).to_set(),
                    ));
                }
                j2 = j2 + 1;
            }
            proof {
                assert(fresh@.take(fresh@.len() as int) =~= fresh@);
                lemma_filter_set_union(landed@, pr0.landed_in@);
                assert(pr.landed_in@ =~= pr0.landed_in@.union(
                    landed@.map_values(|c: String| c@).to_set(),
                ));
            }
            let r: Option<Event<PullAction>> = if fresh.len() > 0 {
                Some((now, clone_string(id), PullAction::Landed(fresh)))
            } else {
                proof {
                    assert(pr.landed_in@ =~= pr0.landed_in@);
                    assert(fresh@.take(0) =~= Seq::<String>::empty());
                    assert(pr.landed_in == pr0.landed_in);
                }
                None
            };
            prs.insert(pr);
            proof {
                assert(final(prs)@ =~= m0.remove(id@).insert(id@, pr));
                assert(final(prs)@.dom() =~= m0.dom());
            }
            r
        },
    }
}

/// Adding only the unrecorded channels still amounts to the full union.
proof fn lemma_filter_set_union(landed: Seq<String>, have: Set<Seq<char>>)
    ensures
        have.union(
            landed.filter(|c: String| !have.contains(c@)).map_values(|c: String| c@).to_set(),
        ) == have.union(landed.map_values(|c: String| c@).to_set()),
    decreases landed.len(),
{
    reveal(Seq::filter);
    let pred = |c: String| !have.contains(c@);
    if landed.len() == 0 {
        assert(landed.filter(pred) == landed);
        assert(have.union(landed.map_values(|c: String| c@).to_set()) =~= have.union(
            landed.filter(pred).map_values(|c: String| c@).to_set(),
        ));
    } else {
        let pre = landed.drop_last();
        lemma_filter_set_union(pre, have);
        let lhs = have.union(landed.filter(pred).map_values(|c: String| c@).to_set());
        let rhs = have.union(landed.map_values(|c: String| c@).to_set());
        assert forall|k: Seq<char>| lhs.contains(k) == rhs.contains(k) by {
            assert(have.union(
                pre.filter(pred).map_values(|c: String| c@).to_set(),
            ).contains(k) == have.union(pre.map_values(|c: String| c@).to_set()).contains(k));
            let lm = landed.map_values(|c: String| c@);
            let pm = pre.map_values(|c: String| c@);
            let lf = landed.filter(pred).map_values(|c: String| c@);
            let pf = pre.filter(pred).map_values(|c: String| c@);
            assert(landed.filter(pred) == if pred(landed.last()) {
                pre.filter(pred).push(landed.last())
            } else {
                pre.filter(pred)
            });
            assert forall|q: Seq<char>| lm.to_set().contains(q) == (pm.to_set().contains(q) || q
                == landed.last()@) by {
                if lm.to_set().contains(q) {
                    let a = choose|a: int| 0 <= a < lm.len() && lm[a] == q;
                    if a < pre.len() {
                        assert(pm[a] == q);
                        assert(pm.contains(q));
                    }
                }
                if pm.to_set().contains(q) {
                    let a = choose|a: int| 0 <= a < pm.len() && pm[a] == q;
                    assert(lm[a] == q);
                    assert(lm.contains(q));
                }
                if q == landed.last()@ {
                    assert(lm[landed.len() - 1] == q);
                    assert(lm.contains(q));
                }
            }
            if pred(landed.last()) {
                assert forall|q: Seq<char>| lf.to_set().contains(q) == (pf.to_set().contains(q)
                    || q == landed.last()@) by {
                    let ff = landed.filter(pred);
                    assert(ff == pre.filter(pred).push(landed.last()));
                    if lf.to_set().contains(q) {
                        let a = choose|a: int| 0 <= a < lf.len() && lf[a] == q;
                        if a < pre.filter(pred).len() {
                            assert(pf[a] == q);
                            assert(pf.contains(q));
                        }
                    }
                    if pf.to_set().contains(q) {
                        let a = choose|a: int| 0 <= a < pf.len() && pf[a] == q;
                        assert(lf[a] == q);
                        assert(lf.contains(q));
                    }
                    if q == landed.last()@ {
                        assert(lf[ff.len() - 1] == q);
                        assert(lf.contains(q));
                    }
                }
            } else {
                assert(lf == pf);
                assert(have.contains(landed.last()@));
            }
        }
        assert(lhs =~= rhs);
    }
}

/// Detection is idempotent: once an answer has been folded in, running the
/// very same answer against the grown set finds nothing new, so no event
/// would be emitted.
pub proof fn lemma_detection_idempotent(landed: Seq<String>, have: Set<Seq<char>>)
    ensures
        landed.filter(
            |c: String|
                !have.union(landed.map_values(|c: String| c@).to_set()).contains(c@),
        ) == Seq::<String>::empty(),
{
    let grown = have.union(landed.map_values(|c: String| c@).to_set());
    assert forall|i: int| 0 <= i < landed.len() implies grown.contains(#[trigger] landed[i]@) by {
        let m = landed.map_values(|c: String| c@);
        assert(m[i] == landed[i]@);
        assert(m.contains(landed[i]@));
    }
    lemma_landing_rerun_empty(landed, grown);
}

/// When every channel an ancestry answer reports is already recorded, the
/// answer adds nothing and no event is emitted.
pub proof fn lemma_landing_rerun_empty(landed: Seq<String>, have: Set<Seq<char>>)
    requires
        forall|i: int| 0 <= i < landed.len() ==> have.contains(#[trigger] landed[i]@),
    ensures
        landed.filter(|c: String| !have.contains(c@)) == Seq::<String>::empty(),
    decreases landed.len(),
{
    reveal(Seq::filter);
    let pred = |c: String| !have.contains(c@);
    if landed.len() == 0 {
        assert(landed.filter(pred) =~= Seq::<String>::empty());
    } else {
        let pre = landed.drop_last();
        assert forall|i: int| 0 <= i < pre.len() implies have.contains(#[trigger] pre[i]@) by {
            assert(pre[i] == landed[i]);
        }
        lemma_landing_rerun_empty(pre, have);
        assert(have.contains(landed[landed.len() - 1]@));
        assert(!pred(landed.last()));
    }
}

/// One more rule contributes its names exactly when its matcher applies.
proof fn lemma_channels_take_step(ps: Seq<ChannelPattern>, base: Seq<char>, i: int)
    requires
        0 <= i < ps.len(),
    ensures
        channels_of(ps.take(i + 1), base) == channels_of(ps.take(i), base).union(
            if matcher_applies(ps[i].matcher, base) {
                names_of(ps[i], base)
            } else {
                Set::<Seq<char>>::empty()
            },
        ),
{
    let lhs = channels_of(ps.take(i + 1), base);
    let rhs = channels_of(ps.take(i), base).union(
        if matcher_applies(ps[i].matcher, base) {
            names_of(ps[i], base)
        } else {
            Set::<Seq<char>>::empty()
        },
    );
    assert forall|k: Seq<char>| lhs.contains(k) implies rhs.contains(k) by {
        let (a, b): (int, int) = choose|a: int, b: int|
            0 <= a < ps.take(i + 1).len() && matcher_applies(ps.take(i + 1)[a].matcher, base) && 0
                <= b < ps.take(i + 1)[a].channels@.len() && k == channel_name(
                ps.take(i + 1)[a].matcher,
                base,
                #[trigger] ps.take(i + 1)[a].channels@[b],
            );
        if a < i {
            assert(ps.take(i)[a] == ps[a]);
            assert(ps.take(i)[a].channels@[b] == ps[a].channels@[b]);
            assert(channels_of(ps.take(i), base).contains(k));
        } else {
            assert(ps.take(i + 1)[a] == ps[i]);
            assert(names_of(ps[i], base).contains(k)) by {
                assert(k == channel_name(ps[i].matcher, base, ps[i].channels@[b]));
            }
        }
    }
    assert forall|k: Seq<char>| rhs.contains(k) implies lhs.contains(k) by {
        if channels_of(ps.take(i), base).contains(k) {
            let (a, b): (int, int) = choose|a: int, b: int|
                0 <= a < ps.take(i).len() && matcher_applies(ps.take(i)[a].matcher, base) && 0 <= b
                    < ps.take(i)[a].channels@.len() && k == channel_name(
                    ps.take(i)[a].matcher,
                    base,
                    #[trigger] ps.take(i)[a].channels@[b],
                );
            assert(ps.take(i + 1)[a] == ps[a]);
            assert(ps.take(i)[a] == ps[a]);
            assert(0 <= a < ps.take(i + 1).len() && matcher_applies(
                ps.take(i + 1)[a].matcher,
                base,
            ) && 0 <= b < ps.take(i + 1)[a].channels@.len() && k == channel_name(
                ps.take(i + 1)[a].matcher,
                base,
                ps.take(i + 1)[a].channels@[b],
            ));
        } else {
            assert(matcher_applies(ps[i].matcher, base) && names_of(ps[i], base).contains(k));
            let b = choose|b: int|
                0 <= b < ps[i].channels@.len() && k == channel_name(
                    ps[i].matcher,
                    base,
                    #[trigger] ps[i].channels@[b],
                );
            assert(ps.take(i + 1)[i] == ps[i]);
            assert(0 <= i < ps.take(i + 1).len() && matcher_applies(
                ps.take(i + 1)[i].matcher,
                base,
            ) && 0 <= b < ps.take(i + 1)[i].channels@.len() && k == channel_name(
                ps.take(i + 1)[i].matcher,
                base,
                ps.take(i + 1)[i].channels@[b],
            ));
        }
    }
    assert(lhs =~= rhs);
}

} // verus!
