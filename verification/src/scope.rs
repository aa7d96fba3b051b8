use vstd::prelude::*;
use vstd::string::StrSliceExecFns;
use crate::error::HttpError;
use crate::text::is_prefix_of;
use crate::text::lower_val;
use crate::text::seq_ieq;
use crate::text::str_eq;
use crate::text::str_has_prefix;
use crate::text::str_ieq;

verus! {

/// The parts of a URL that scope matching reads: scheme, host, effective
/// port (the embedding program resolves the scheme's default before calling
/// in), and path. Query and fragment play no role in matching.
pub struct UrlParts {
    pub scheme: String,
    pub host: String,
    pub port: u16,
    pub path: String,
}

/// One allow-list rule. `scheme`, `host` and `port` are `None` when the rule
/// leaves that component unconstrained (a wildcard segment); `path_stem` is
/// the pattern's path with `path_is_prefix` telling whether a trailing glob
/// made it a prefix rule (`/api/*`) instead of an exact one (`/api`).
/// Immutable once loaded.
#[derive(Debug)]
pub struct ScopePattern {
    pub scheme: Option<String>,
    pub host: Option<String>,
    pub port: Option<u16>,
    pub path_stem: String,
    pub path_is_prefix: bool,
}

/// A scheme is one or more ASCII letters, digits, `+`, `-` or `.`, starting
/// with a letter.
pub open spec fn scheme_char_ok(c: char) -> bool {
    ('a' <= c && c <= 'z') || ('A' <= c && c <= 'Z') || ('0' <= c && c <= '9') || c == '+' || c
        == '-' || c == '.'
}

pub open spec fn scheme_wf(s: Seq<char>) -> bool {
    &&& s.len() > 0
    &&& (('a' <= s[0] && s[0] <= 'z') || ('A' <= s[0] && s[0] <= 'Z'))
    &&& forall|i: int| 0 <= i < s.len() ==> #[trigger] scheme_char_ok(s[i])
}

/// A host is one or more ASCII letters, digits, `-`, `_` or `.`.
pub open spec fn host_char_ok(c: char) -> bool {
    ('a' <= c && c <= 'z') || ('A' <= c && c <= 'Z') || ('0' <= c && c <= '9') || c == '-' || c
        == '_' || c == '.'
}

pub open spec fn host_wf(s: Seq<char>) -> bool {
    s.len() > 0 && forall|i: int| 0 <= i < s.len() ==> #[trigger] host_char_ok(s[i])
}

/// A pattern path stem starts with `/` and holds printable ASCII without
/// `*` (the glob marker is stripped into `path_is_prefix` at load time).
pub open spec fn path_char_ok(c: char) -> bool {
    0x21 <= c as int && c as int <= 0x7e && c != '*'
}

pub open spec fn path_stem_wf(s: Seq<char>) -> bool {
    s.len() > 0 && s[0] == '/' && forall|i: int| 0 <= i < s.len() ==> #[trigger] path_char_ok(s[i])
}

/// One allow-list rule as handed in by the host's configuration source,
/// before validation.
pub struct ScopeRule {
    pub scheme: Option<String>,
    pub host: Option<String>,
    pub port: Option<u16>,
    pub path_stem: String,
    pub path_is_prefix: bool,
}

/// A rule's components all obey their grammars, so it will load.
pub open spec fn rule_wf(r: ScopeRule) -> bool {
    &&& (r.scheme matches Some(s) ==> scheme_wf(s@))
    &&& (r.host matches Some(h) ==> host_wf(h@))
    &&& path_stem_wf(r.path_stem@)
}

/// The loaded pattern `p` carries exactly the components of rule `r`.
pub open spec fn pattern_of_rule(p: ScopePattern, r: ScopeRule) -> bool {
    &&& p.scheme == r.scheme
    &&& p.host == r.host
    &&& p.port == r.port
    &&& p.path_stem == r.path_stem
    &&& p.path_is_prefix == r.path_is_prefix
}

/// Well-formedness of one loaded rule: every component present obeys its
/// character grammar.
pub open spec fn pattern_wf(p: ScopePattern) -> bool {
    &&& (p.scheme matches Some(s) ==> scheme_wf(s@))
    &&& (p.host matches Some(h) ==> host_wf(h@))
    &&& path_stem_wf(p.path_stem@)
}

/// Structural match of one rule against one URL: scheme, host and port match
/// exactly or via a wildcard segment (case-insensitively for scheme and
/// host), and the path is an exact or prefix match of the rule's path
/// (case-sensitively).
pub open spec fn pattern_matches(p: ScopePattern, u: UrlParts) -> bool {
    &&& (p.scheme matches Some(s) ==> seq_ieq(s@, u.scheme@))
    &&& (p.host matches Some(h) ==> seq_ieq(h@, u.host@))
    &&& (p.port matches Some(q) ==> q == u.port)
    &&& if p.path_is_prefix {
        is_prefix_of(p.path_stem@, u.path@)
    } else {
        p.path_stem@ == u.path@
    }
}

impl ScopePattern {
    /// Builds one allow-list rule from its components, validating each
    /// against its grammar. A malformed component is a configuration error
    /// and never loads; in particular nothing malformed ever widens into
    /// "match everything".
    pub fn new(
        scheme: Option<String>,
        host: Option<String>,
        port: Option<u16>,
        path_stem: String,
        path_is_prefix: bool,
    ) -> (r: Result<ScopePattern, HttpError>)
        ensures
            match r {
                Ok(p) => {
                    &&& pattern_wf(p)
                    &&& p.scheme == scheme
                    &&& p.host == host
                    &&& p.port == port
                    &&& p.path_stem == path_stem
                    &&& p.path_is_prefix == path_is_prefix
                },
                Err(e) => {
                    &&& e == HttpError::ConfigurationError
                    &&& !((scheme matches Some(s) ==> scheme_wf(s@)) && (host matches Some(h)
                        ==> host_wf(h@)) && path_stem_wf(path_stem@))
                },
            },
    {
        match &scheme {
            Some(s) => {
                if !scheme_ok(s.as_str()) {
                    return Err(HttpError::ConfigurationError);
                }
            },
            None => {},
        }
        match &host {
            Some(h) => {
                if !host_ok(h.as_str()) {
                    return Err(HttpError::ConfigurationError);
                }
            },
            None => {},
        }
        if !path_stem_ok(path_stem.as_str()) {
            return Err(HttpError::ConfigurationError);
        }
        Ok(ScopePattern { scheme, host, port, path_stem, path_is_prefix })
    }
}

/// Decides `scheme_wf`.
fn scheme_ok(s: &str) -> (r: bool)
    ensures
        r == scheme_wf(s@),
{
    let n: usize = s.unicode_len();
    if n == 0 {
        return false;
    }
    let c0 = s.get_char(0);
    if !(('a' <= c0 && c0 <= 'z') || ('A' <= c0 && c0 <= 'Z')) {
        return false;
    }
    let mut i: usize = 0;
    while i < n
        invariant
            n == s@.len(),
            i <= n,
            forall|j: int| 0 <= j < i ==> #[trigger] scheme_char_ok(s@[j]),
        decreases n - i,
    {
        let c = s.get_char(i);
        if !(('a' <= c && c <= 'z') || ('A' <= c && c <= 'Z') || ('0' <= c && c <= '9') || c == '+'
            || c == '-' || c == '.') {
            assert(!scheme_char_ok(s@[i as int]));
            return false;
        }
        i += 1;
    }
    true
}

/// Decides `host_wf`.
fn host_ok(s: &str) -> (r: bool)
    ensures
        r == host_wf(s@),
{
    let n: usize = s.unicode_len();
    if n == 0 {
        return false;
    }
    let mut i: usize = 0;
    while i < n
        invariant
            n == s@.len(),
            i <= n,
            forall|j: int| 0 <= j < i ==> #[trigger] host_char_ok(s@[j]),
        decreases n - i,
    {
        let c = s.get_char(i);
        if !(('a' <= c && c <= 'z') || ('A' <= c && c <= 'Z') || ('0' <= c && c <= '9') || c == '-'
            || c == '_' || c == '.') {
            assert(!host_char_ok(s@[i as int]));
            return false;
        }
        i += 1;
    }
    true
}

/// Decides `path_stem_wf`.
fn path_stem_ok(s: &str) -> (r: bool)
    ensures
        r == path_stem_wf(s@),
{
    let n: usize = s.unicode_len();
    if n == 0 {
        return false;
    }
    if s.get_char(0) != '/' {
        return false;
    }
    let mut i: usize = 0;
    while i < n
        invariant
            n == s@.len(),
            i <= n,
            forall|j: int| 0 <= j < i ==> #[trigger] path_char_ok(s@[j]),
        decreases n - i,
    {
        let c = s.get_char(i);
        let v = c as u32;
        if v < 0x21 || v > 0x7e || c == '*' {
            assert(!path_char_ok(s@[i as int]));
            return false;
        }
        i += 1;
    }
    true
}

/// Decides `pattern_matches` for one rule.
fn matches_one(p: &ScopePattern, u: &UrlParts) -> (r: bool)
    ensures
        r == pattern_matches(*p, *u),
{
    match &p.scheme {
        Some(s) => {
            if !str_ieq(s.as_str(), u.scheme.as_str()) {
                return false;
            }
        },
        None => {},
    }
    match &p.host {
        Some(h) => {
            if !str_ieq(h.as_str(), u.host.as_str()) {
                return false;
            }
        },
        None => {},
    }
    match &p.port {
        Some(q) => {
            if *q != u.port {
                return false;
            }
        },
        None => {},
    }
    if p.path_is_prefix {
        str_has_prefix(p.path_stem.as_str(), u.path.as_str())
    } else {
        str_eq(p.path_stem.as_str(), u.path.as_str())
    }
}

/// The allow-list: a set of rules loaded once at startup and read-only
/// afterwards, so `permits` may be called concurrently without
/// synchronization. An empty set denies every URL (fail-closed).
#[derive(Debug)]
pub struct Scope {
    patterns: Vec<ScopePattern>,
}

impl View for Scope {
    type V = Seq<ScopePattern>;

    closed spec fn view(&self) -> Seq<ScopePattern> {
        self.patterns@
    }
}

impl Scope {
    /// Every loaded rule is well formed.
    pub open spec fn wf(&self) -> bool {
        forall|i: int| 0 <= i < self@.len() ==> #[trigger] pattern_wf(self@[i])
    }

    /// A URL is permitted exactly when some rule of the scope structurally
    /// matches it.
    pub open spec fn spec_permits(&self, u: UrlParts) -> bool {
        exists|i: int| 0 <= i < self@.len() && #[trigger] pattern_matches(self@[i], u)
    }

    /// Loads the scope from already-validated rules.
    pub fn new(patterns: Vec<ScopePattern>) -> (r: Scope)
        requires
            forall|i: int| 0 <= i < patterns@.len() ==> #[trigger] pattern_wf(patterns@[i]),
        ensures
            r@ == patterns@,
            r.wf(),
    {
        Scope { patterns }
    }

    /// Loads the scope from rule components. If any rule is malformed the
    /// whole load fails with `ConfigurationError` (this crate's documented
    /// policy: an allow-list with a bad entry is rejected outright, never
    /// partially honoured and never widened).
    #[verifier::loop_isolation(false)]
    pub fn load(rules: Vec<ScopeRule>) -> (r: Result<Scope, HttpError>)
        ensures
            r is Ok <==> (forall|i: int| 0 <= i < rules@.len() ==> #[trigger] rule_wf(rules@[i])),
            match r {
                Ok(s) => {
                    &&& s.wf()
                    &&& s@.len() == rules@.len()
                    &&& forall|i: int|
                        0 <= i < rules@.len() ==> #[trigger] pattern_of_rule(s@[i], rules@[i])
                },
                Err(e) => e == HttpError::ConfigurationError,
            },
    {
        let ghost rules0: Seq<ScopeRule> = rules@;
        let mut rules = rules;
        let ghost n: int = rules0.len() as int;
        let mut rev: Vec<ScopePattern> = Vec::new();
        while rules.len() > 0
            invariant
                n == rules0.len(),
                rules@ =~= rules0.subrange(0, rules@.len() as int),
                rev@.len() + rules@.len() == n,
                forall|i: int|
                    0 <= i < rev@.len() ==> pattern_of_rule(#[trigger] rev@[i], rules0[n - 1 - i])
                        && pattern_wf(rev@[i]) && rule_wf(rules0[n - 1 - i]),
            decreases rules@.len(),
        {
            let ghost len0: int = rules@.len() as int;
            let rule = rules.pop().unwrap();
            let ghost k: int = len0 - 1;
            assert(rule == rules0.subrange(0, len0)[k]);
            assert(rule == rules0[k]);
            match ScopePattern::new(
                rule.scheme,
                rule.host,
                rule.port,
                rule.path_stem,
                rule.path_is_prefix,
            ) {
                Ok(p) => {
                    rev.push(p);
                },
                Err(e) => {
                    assert(!rule_wf(rules0[k]));
                    return Err(HttpError::ConfigurationError);
                },
            }
            assert(rules@ =~= rules0.subrange(0, rules@.len() as int));
        }
        assert forall|j: int| 0 <= j < n implies #[trigger] rule_wf(rules0[j]) by {
            assert(pattern_of_rule(rev@[n - 1 - j], rules0[n - 1 - (n - 1 - j)]));
        }
        let mut patterns: Vec<ScopePattern> = Vec::new();
        while rev.len() > 0
            invariant
                n == rules0.len(),
                patterns@.len() + rev@.len() == n,
                forall|i: int|
                    0 <= i < rev@.len() ==> pattern_of_rule(#[trigger] rev@[i], rules0[n - 1 - i])
                        && pattern_wf(rev@[i]) && rule_wf(rules0[n - 1 - i]),
                forall|i: int|
                    0 <= i < patterns@.len() ==> pattern_of_rule(
                        #[trigger] patterns@[i],
                        rules0[i],
                    ) && pattern_wf(patterns@[i]),
            decreases rev@.len(),
        {
            let ghost len0: int = rev@.len() as int;
            let p = rev.pop().unwrap();
            assert(pattern_of_rule(p, rules0[n - len0]));
            patterns.push(p);
        }
        Ok(Scope::new(patterns))
    }

    /// Decides whether `u` may be dispatched: true exactly when some rule
    /// matches. Pure, reads only the loaded rules.
    pub fn permits(&self, u: &UrlParts) -> (r: bool)
        ensures
            r == self.spec_permits(*u),
    {
        let n: usize = self.patterns.len();
        let mut i: usize = 0;
        while i < n
            invariant
                n == self@.len(),
                i <= n,
                forall|j: int| 0 <= j < i ==> !#[trigger] pattern_matches(self@[j], *u),
            decreases n - i,
        {
            if matches_one(&self.patterns[i], u) {
                return true;
            }
            i += 1;
        }
        false
    }
}

/// An empty pattern set denies everything: with no rules loaded, no URL is
/// ever permitted (the fail-closed default — the scope never silently falls
/// back to "allow all").
pub proof fn lemma_empty_scope_denies(s: Scope, u: UrlParts)
    requires
        s@.len() == 0,
    ensures
        !s.spec_permits(u),
{
}

} // verus!
