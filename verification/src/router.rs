//! SNI route matching: exact host names, wildcards, and regex patterns.
//!
//! A host name is resolved in four stages: an exact route, then the wildcard
//! route with the longest suffix, then the first regex route that matches,
//! then the default backend.

use vstd::prelude::*;
use vstd::utf8::encode_utf8;

use crate::error::{ErrorView, SniProxyError};
use crate::pattern::{CompiledRegex, regex_compile_error, regex_is_match};
use crate::text::{
    ascii_lower, ascii_upper, debug_quoted, debug_text, ends_with, lemma_ascii_lower,
    lemma_upper_then_lower, starts_with, str_ends_with, strip_prefix, to_ascii_lowercase,
};

verus! {

/// How a route's pattern is read.
pub enum PatternView {
    /// The host name, in lower case.
    Exact(Seq<char>),
    /// `*.suffix`: the suffix, in lower case.
    Wildcard(Seq<char>),
    /// `regex:pattern`: the pattern as written.
    Regex(Seq<char>),
}

/// A route: a pattern and the name of its backend.
pub struct RouteView {
    pub pattern: PatternView,
    pub backend: Seq<char>,
}

/// The mathematical value of a [`RouteTable`].
pub struct RouteTableView {
    /// The routes, in the order in which the configuration listed them.
    pub routes: Seq<RouteView>,
    /// Backend names and their `host:port` addresses.
    pub backends: Seq<(Seq<char>, Seq<char>)>,
    pub default_backend: Option<Seq<char>>,
}

/// The value of the entry named `name`, if any, looking from the front.
/// In a route table the names are distinct (see [`distinct_names`]), so this
/// is the one entry of that name ([`lemma_find_backend_lookup`]).
pub open spec fn find_backend(backends: Seq<(Seq<char>, Seq<char>)>, name: Seq<char>) -> Option<
    Seq<char>,
>
    decreases backends.len(),
{
    if backends.len() == 0 {
        None
    } else if backends[0].0 == name {
        Some(backends[0].1)
    } else {
        find_backend(backends.drop_first(), name)
    }
}

/// The names of a list of named texts are distinct, as the keys of a
/// configuration table are.
pub open spec fn distinct_names(pairs: Seq<(Seq<char>, Seq<char>)>) -> bool {
    forall|i: int, j: int| 0 <= i < j < pairs.len() ==> #[trigger] pairs[i].0 != #[trigger] pairs[j].0
}

/// With distinct names, the lookup finds the one entry of that name.
pub proof fn lemma_find_backend_lookup(b: Seq<(Seq<char>, Seq<char>)>, name: Seq<char>, i: int)
    requires
        distinct_names(b),
        0 <= i < b.len(),
        b[i].0 == name,
    ensures
        find_backend(b, name) == Some(b[i].1),
    decreases i,
{
    if i > 0 {
        assert(b[0].0 != b[i].0);
        let r = b.drop_first();
        assert(distinct_names(r)) by {
            assert forall|x: int, y: int| 0 <= x < y < r.len() implies #[trigger] r[x].0 != #[trigger] r[y].0 by {
                assert(r[x] == b[x + 1] && r[y] == b[y + 1]);
            }
        }
        lemma_find_backend_lookup(r, name, i - 1);
    }
}

/// `sni` falls under the wildcard suffix: it is the suffix itself or ends
/// with `.` and the suffix.
pub open spec fn spec_wildcard_matches(sni: Seq<char>, suffix: Seq<char>) -> bool {
    sni == suffix || ends_with(sni, seq!['.'] + suffix)
}

pub open spec fn exact_hit(r: RouteView, sni: Seq<char>) -> bool {
    r.pattern == PatternView::Exact(sni)
}

pub open spec fn wildcard_hit(r: RouteView, sni: Seq<char>) -> bool {
    r.pattern matches PatternView::Wildcard(suffix) && spec_wildcard_matches(sni, suffix)
}

pub open spec fn regex_hit(r: RouteView, sni: Seq<char>) -> bool {
    r.pattern matches PatternView::Regex(pattern) && regex_is_match(pattern, sni)
}

/// The length in bytes (UTF-8, as a `usize`) of a wildcard route's suffix.
pub open spec fn suffix_len(r: RouteView) -> usize {
    match r.pattern {
        PatternView::Wildcard(suffix) => encode_utf8(suffix).len() as usize,
        _ => 0,
    }
}

/// The routes whose pattern is exactly the host name `sni`.
pub open spec fn exact_route(sni: Seq<char>) -> spec_fn(RouteView) -> bool {
    |r: RouteView| exact_hit(r, sni)
}

/// The regex routes that match the host name `sni`.
pub open spec fn regex_route(sni: Seq<char>) -> spec_fn(RouteView) -> bool {
    |r: RouteView| regex_hit(r, sni)
}

/// Route `i` is the first one of which `hit` holds.
pub open spec fn is_first(routes: Seq<RouteView>, hit: spec_fn(RouteView) -> bool, i: int) -> bool {
    &&& 0 <= i < routes.len()
    &&& hit(routes[i])
    &&& forall|j: int| 0 <= j < i ==> !hit(#[trigger] routes[j])
}

/// Route `i` is the matching wildcard route with the longest suffix, and the
/// first one among those of that length.
pub open spec fn is_best_wildcard(routes: Seq<RouteView>, sni: Seq<char>, i: int) -> bool {
    &&& 0 <= i < routes.len()
    &&& wildcard_hit(routes[i], sni)
    &&& forall|j: int|
        0 <= j < routes.len() && wildcard_hit(#[trigger] routes[j], sni) ==> suffix_len(routes[j])
            <= suffix_len(routes[i]) && (j < i ==> suffix_len(routes[j]) < suffix_len(routes[i]))
}

/// The address of backend `name`, or `UnknownBackend` when none is so named.
pub open spec fn spec_backend_addr(t: RouteTableView, name: Seq<char>) -> Result<Seq<char>, ErrorView> {
    match find_backend(t.backends, name) {
        Some(addr) => Ok(addr),
        None => Err(ErrorView::UnknownBackend { backend: name }),
    }
}

/// The backend address for an SNI host name, after ASCII lower-casing it:
/// an exact route, else the best wildcard route, else the first matching
/// regex route, else the default backend, else `NoRoute`.
pub open spec fn spec_resolve(t: RouteTableView, sni: Seq<char>) -> Result<Seq<char>, ErrorView> {
    let s = ascii_lower(sni);
    let exact = exact_route(s);
    let regex = regex_route(s);
    if exists|i: int| is_first(t.routes, exact, i) {
        spec_backend_addr(t, t.routes[choose|i: int| is_first(t.routes, exact, i)].backend)
    } else if exists|i: int| is_best_wildcard(t.routes, s, i) {
        spec_backend_addr(t, t.routes[choose|i: int| is_best_wildcard(t.routes, s, i)].backend)
    } else if exists|i: int| is_first(t.routes, regex, i) {
        spec_backend_addr(t, t.routes[choose|i: int| is_first(t.routes, regex, i)].backend)
    } else if let Some(name) = t.default_backend {
        spec_backend_addr(t, name)
    } else {
        Err(ErrorView::NoRoute { sni: s })
    }
}

pub open spec fn resolve_outcome(r: Result<String, SniProxyError>) -> Result<Seq<char>, ErrorView> {
    match r {
        Ok(s) => Ok(s@),
        Err(e) => Err(e@),
    }
}

#[derive(Debug)]
enum RoutePattern {
    Exact(String),
    Wildcard { suffix: String },
    Regex(CompiledRegex),
}

impl View for RoutePattern {
    type V = PatternView;

    closed spec fn view(&self) -> PatternView {
        match self {
            RoutePattern::Exact(h) => PatternView::Exact(h@),
            RoutePattern::Wildcard { suffix } => PatternView::Wildcard(suffix@),
            RoutePattern::Regex(re) => PatternView::Regex(re@),
        }
    }
}

#[derive(Debug)]
struct RouteEntry {
    pattern: RoutePattern,
    backend: String,
}

impl View for RouteEntry {
    type V = RouteView;

    closed spec fn view(&self) -> RouteView {
        RouteView { pattern: self.pattern@, backend: self.backend@ }
    }
}

/// The mathematical value of a list of named texts.
pub open spec fn pairs_view(v: Seq<(String, String)>) -> Seq<(Seq<char>, Seq<char>)> {
    v.map_values(|p: (String, String)| (p.0@, p.1@))
}

pub open spec fn option_view(o: Option<String>) -> Option<Seq<char>> {
    match o {
        Some(s) => Some(s@),
        None => None,
    }
}

/// Route table built from the configuration's routes and backends.
#[derive(Debug)]
pub struct RouteTable {
    routes: Vec<RouteEntry>,
    backends: Vec<(String, String)>,
    default_backend: Option<String>,
}

impl View for RouteTable {
    type V = RouteTableView;

    closed spec fn view(&self) -> RouteTableView {
        RouteTableView {
            routes: self.routes@.map_values(|e: RouteEntry| e@),
            backends: pairs_view(self.backends@),
            default_backend: option_view(self.default_backend),
        }
    }
}

impl RouteTableView {
    /// Backend names are distinct, and every backend that a route or the
    /// default names is defined.
    pub open spec fn wf(self) -> bool {
        &&& distinct_names(self.backends)
        &&& forall|i: int|
            0 <= i < self.routes.len() ==> #[trigger] find_backend(
                self.backends,
                self.routes[i].backend,
            ) is Some
        &&& self.default_backend matches Some(d) ==> find_backend(self.backends, d) is Some
    }
}

impl RouteTable {
    #[verifier::type_invariant]
    spec fn well_formed(self) -> bool {
        self@.wf()
    }
}


pub open spec fn msg_unknown_backend(pattern: Seq<char>, backend: Seq<char>) -> Seq<char> {
    "route "@ + debug_text(pattern) + " references unknown backend "@ + debug_text(backend)
}

pub open spec fn msg_invalid_regex(re: Seq<char>, err: Seq<char>) -> Seq<char> {
    "invalid regex "@ + debug_text(re) + ": "@ + err
}

pub open spec fn msg_invalid_wildcard(pattern: Seq<char>) -> Seq<char> {
    "invalid wildcard route "@ + debug_text(pattern)
}

pub open spec fn msg_unknown_default(name: Seq<char>) -> Seq<char> {
    "default_backend "@ + debug_text(name) + " is not defined in [backends]"@
}

/// The route that one `pattern = backend` line of the configuration makes.
/// `regex:` starts a regular expression, `*.` a wildcard over a non-empty
/// suffix; any other pattern is an exact host name. Host names and suffixes
/// are kept in ASCII lower case. The backend must be defined.
pub open spec fn spec_route(
    pattern: Seq<char>,
    backend: Seq<char>,
    backends: Seq<(Seq<char>, Seq<char>)>,
) -> Result<RouteView, ErrorView> {
    if find_backend(backends, backend) is None {
        Err(ErrorView::Config(msg_unknown_backend(pattern, backend)))
    } else if starts_with(pattern, "regex:"@) {
        let re = pattern.subrange("regex:"@.len() as int, pattern.len() as int);
        match regex_compile_error(re) {
            Some(e) => Err(ErrorView::Config(msg_invalid_regex(re, e))),
            None => Ok(RouteView { pattern: PatternView::Regex(re), backend }),
        }
    } else if starts_with(pattern, "*."@) {
        let suffix = pattern.subrange("*."@.len() as int, pattern.len() as int);
        if suffix.len() == 0 {
            Err(ErrorView::Config(msg_invalid_wildcard(pattern)))
        } else {
            Ok(RouteView { pattern: PatternView::Wildcard(ascii_lower(suffix)), backend })
        }
    } else {
        Ok(RouteView { pattern: PatternView::Exact(ascii_lower(pattern)), backend })
    }
}

/// The routes that the configured lines make, in order; the first line that
/// cannot be used decides the error.
pub open spec fn spec_routes(
    routes: Seq<(Seq<char>, Seq<char>)>,
    backends: Seq<(Seq<char>, Seq<char>)>,
) -> Result<Seq<RouteView>, ErrorView>
    decreases routes.len(),
{
    if routes.len() == 0 {
        Ok(Seq::empty())
    } else {
        match spec_routes(routes.drop_last(), backends) {
            Err(e) => Err(e),
            Ok(done) => match spec_route(routes.last().0, routes.last().1, backends) {
                Err(e) => Err(e),
                Ok(r) => Ok(done.push(r)),
            },
        }
    }
}

/// The table that a configuration makes: its routes, its backends and its
/// default backend, which must be defined when it is given.
pub open spec fn spec_from_config(
    routes: Seq<(Seq<char>, Seq<char>)>,
    backends: Seq<(Seq<char>, Seq<char>)>,
    default_backend: Option<Seq<char>>,
) -> Result<RouteTableView, ErrorView> {
    match spec_routes(routes, backends) {
        Err(e) => Err(e),
        Ok(made) => {
            if default_backend matches Some(d) && find_backend(backends, d) is None {
                Err(ErrorView::Config(msg_unknown_default(default_backend->0)))
            } else {
                Ok(RouteTableView { routes: made, backends, default_backend })
            }
        },
    }
}

pub open spec fn table_outcome(r: Result<RouteTable, SniProxyError>) -> Result<RouteTableView, ErrorView> {
    match r {
        Ok(t) => Ok(t@),
        Err(e) => Err(e@),
    }
}

proof fn lemma_routes_error_stays(
    routes: Seq<(Seq<char>, Seq<char>)>,
    backends: Seq<(Seq<char>, Seq<char>)>,
    k: int,
)
    requires
        0 <= k <= routes.len(),
        spec_routes(routes.take(k), backends) is Err,
    ensures
        spec_routes(routes, backends) == spec_routes(routes.take(k), backends),
    decreases routes.len() - k,
{
    if k == routes.len() {
        assert(routes.take(k) =~= routes);
    } else {
        assert(routes.take(k + 1).drop_last() =~= routes.take(k));
        lemma_routes_error_stays(routes, backends, k + 1);
    }
}

proof fn lemma_find_backend_skip(backends: Seq<(Seq<char>, Seq<char>)>, name: Seq<char>, i: int)
    requires
        0 <= i < backends.len(),
    ensures
        find_backend(backends.skip(i), name) == (if backends[i].0 == name {
            Some(backends[i].1)
        } else {
            find_backend(backends.skip(i + 1), name)
        }),
{
    assert(backends.skip(i).drop_first() =~= backends.skip(i + 1));
}

/// The position of the first backend named `name`.
fn find_backend_index(backends: &[(String, String)], name: &str) -> (r: Option<usize>)
    ensures
        r is None ==> find_backend(pairs_view(backends@), name@) is None,
        r matches Some(i) ==> i < backends@.len() && find_backend(pairs_view(backends@), name@)
            == Some(backends@[i as int].1@),
{
    let ghost b = pairs_view(backends@);
    let target = name.to_owned();
    let mut i: usize = 0;
    assert(b.skip(0) =~= b);
    while i < backends.len()
        invariant
            i <= backends@.len(),
            b == pairs_view(backends@),
            target@ == name@,
            find_backend(b, name@) == find_backend(b.skip(i as int), name@),
        decreases backends@.len() - i,
    {
        proof {
            lemma_find_backend_skip(b, name@, i as int);
        }
        if backends[i].0 == target {
            return Some(i);
        }
        i = i + 1;
    }
    assert(b.skip(i as int).len() == 0);
    None
}

fn clone_pairs(v: &[(String, String)]) -> (r: Vec<(String, String)>)
    ensures
        pairs_view(r@) == pairs_view(v@),
{
    let mut r: Vec<(String, String)> = Vec::new();
    let mut i: usize = 0;
    while i < v.len()
        invariant
            i <= v@.len(),
            pairs_view(r@) =~= pairs_view(v@).take(i as int),
        decreases v@.len() - i,
    {
        let first = v[i].0.clone();
        let second = v[i].1.clone();
        let ghost before = r@;
        r.push((first, second));
        assert(r@ == before.push((first, second)));
        assert(pairs_view(r@) =~= pairs_view(before).push((v@[i as int].0@, v@[i as int].1@)));
        i = i + 1;
        assert(pairs_view(r@) =~= pairs_view(v@).take(i as int));
    }
    assert(pairs_view(v@).take(i as int) =~= pairs_view(v@));
    r
}

/// `sni` is the wildcard suffix itself or ends with `.suffix`.
fn wildcard_matches(sni: &str, suffix: &str) -> (b: bool)
    ensures
        b == spec_wildcard_matches(sni@, suffix@),
{
    let dotted = ".".to_owned().concat(suffix);
    proof {
        reveal_strlit(".");
    }
    assert(dotted@ =~= seq!['.'] + suffix@);
    sni.to_owned() == suffix.to_owned() || str_ends_with(sni, dotted.as_str())
}

/// Turns what compiling the pattern `re` of a `regex:` route gave into the
/// compiled regex, or into the configuration error that quotes the pattern
/// and the compiler's message.
pub fn regex_or_config_error(re: &str, compiled: Result<CompiledRegex, String>) -> (res: Result<
    CompiledRegex,
    SniProxyError,
>)
    ensures
        compiled is Ok <==> res is Ok,
        res matches Ok(r) ==> compiled matches Ok(c) && r@ == c@,
        compiled matches Err(m) ==> (res matches Err(e) && e@ == ErrorView::Config(
            msg_invalid_regex(re@, m@),
        )),
{
    match compiled {
        Ok(c) => Ok(c),
        Err(m) => {
            let msg = "invalid regex ".to_owned().concat(debug_quoted(re).as_str()).concat(
                ": ",
            ).concat(m.as_str());
            Err(SniProxyError::Config(msg))
        },
    }
}

fn route_entry(pattern: &String, backend: &String, backends: &[(String, String)]) -> (res: Result<
    RouteEntry,
    SniProxyError,
>)
    ensures
        match res {
            Ok(e) => spec_route(pattern@, backend@, pairs_view(backends@)) == Ok::<
                RouteView,
                ErrorView,
            >(e@),
            Err(e) => spec_route(pattern@, backend@, pairs_view(backends@)) == Err::<
                RouteView,
                ErrorView,
            >(e@),
        },
{
    if find_backend_index(backends, backend.as_str()).is_none() {
        let msg = "route ".to_owned().concat(debug_quoted(pattern.as_str()).as_str()).concat(
            " references unknown backend ",
        ).concat(debug_quoted(backend.as_str()).as_str());
        return Err(SniProxyError::Config(msg));
    }
    let route_pattern = if let Some(re) = strip_prefix(pattern.as_str(), "regex:") {
        match regex_or_config_error(re, CompiledRegex::compile(re)) {
            Ok(compiled) => RoutePattern::Regex(compiled),
            Err(e) => {
                return Err(e);
            },
        }
    } else if let Some(suffix) = strip_prefix(pattern.as_str(), "*.") {
        if suffix.is_empty() {
            let msg = "invalid wildcard route ".to_owned().concat(
                debug_quoted(pattern.as_str()).as_str(),
            );
            return Err(SniProxyError::Config(msg));
        }
        RoutePattern::Wildcard { suffix: to_ascii_lowercase(suffix) }
    } else {
        RoutePattern::Exact(to_ascii_lowercase(pattern.as_str()))
    };
    Ok(RouteEntry { pattern: route_pattern, backend: backend.clone() })
}

impl RouteTable {
    /// Builds the table from `pattern = backend` lines, named backends and an
    /// optional default backend. Patterns and backend names are table keys,
    /// so each occurs once.
    pub fn from_config(
        routes: &[(String, String)],
        backends: &[(String, String)],
        default_backend: Option<String>,
    ) -> (res: Result<Self, SniProxyError>)
        requires
            distinct_names(pairs_view(routes@)),
            distinct_names(pairs_view(backends@)),
        ensures
            table_outcome(res) == spec_from_config(
                pairs_view(routes@),
                pairs_view(backends@),
                option_view(default_backend),
            ),
            res matches Ok(t) ==> t@.wf(),
    {
        let ghost r = pairs_view(routes@);
        let ghost b = pairs_view(backends@);
        let mut entries: Vec<RouteEntry> = Vec::new();
        let mut i: usize = 0;
        assert(r.take(0) =~= Seq::<(Seq<char>, Seq<char>)>::empty());
        assert(entries@.map_values(|e: RouteEntry| e@) =~= Seq::<RouteView>::empty());
        while i < routes.len()
            invariant
                i <= routes@.len(),
                r == pairs_view(routes@),
                b == pairs_view(backends@),
                distinct_names(b),
                spec_routes(r.take(i as int), b) == Ok::<Seq<RouteView>, ErrorView>(
                    entries@.map_values(|e: RouteEntry| e@),
                ),
                forall|j: int|
                    0 <= j < entries@.len() ==> #[trigger] find_backend(b, entries@[j]@.backend) is Some,
            decreases routes@.len() - i,
        {
            assert(r.take(i + 1).drop_last() =~= r.take(i as int));
            assert(r.take(i + 1).last() == r[i as int]);
            match route_entry(&routes[i].0, &routes[i].1, backends) {
                Ok(entry) => {
                    let ghost before = entries@.map_values(|e: RouteEntry| e@);
                    let ghost ev = entry@;
                    entries.push(entry);
                    assert(entries@.map_values(|e: RouteEntry| e@) =~= before.push(ev));
                },
                Err(e) => {
                    proof {
                        lemma_routes_error_stays(r, b, i + 1);
                    }
                    return Err(e);
                },
            }
            i = i + 1;
        }
        assert(r.take(i as int) =~= r);
        if let Some(name) = &default_backend {
            if find_backend_index(backends, name.as_str()).is_none() {
                let msg = "default_backend ".to_owned().concat(debug_quoted(name.as_str()).as_str()).concat(
                    " is not defined in [backends]",
                );
                return Err(SniProxyError::Config(msg));
            }
        }
        Ok(RouteTable { routes: entries, backends: clone_pairs(backends), default_backend })
    }
}


proof fn lemma_first_unique(routes: Seq<RouteView>, hit: spec_fn(RouteView) -> bool, i: int, j: int)
    requires
        is_first(routes, hit, i),
        is_first(routes, hit, j),
    ensures
        i == j,
{
    if i < j {
        assert(!hit(routes[i]));
    } else if j < i {
        assert(!hit(routes[j]));
    }
}

proof fn lemma_best_unique(routes: Seq<RouteView>, sni: Seq<char>, i: int, j: int)
    requires
        is_best_wildcard(routes, sni, i),
        is_best_wildcard(routes, sni, j),
    ensures
        i == j,
{
    assert(wildcard_hit(routes[i], sni));
    assert(wildcard_hit(routes[j], sni));
}

impl RouteTable {
    fn backend_addr(&self, name: &str) -> (res: Result<String, SniProxyError>)
        ensures
            resolve_outcome(res) == spec_backend_addr(self@, name@),
    {
        match find_backend_index(self.backends.as_slice(), name) {
            Some(i) => Ok(self.backends[i].1.clone()),
            None => Err(SniProxyError::UnknownBackend { backend: name.to_owned() }),
        }
    }

    /// Resolve SNI hostname to a backend socket address string (`host:port`).
    pub fn resolve(&self, sni: &str) -> (res: Result<String, SniProxyError>)
        ensures
            resolve_outcome(res) == spec_resolve(self@, sni@),
            !(res matches Err(SniProxyError::UnknownBackend { .. })),
    {
        proof {
            use_type_invariant(self);
        }
        let host = to_ascii_lowercase(sni);
        let ghost s = host@;
        let ghost t = self@;
        let ghost routes = t.routes;
        let ghost exact = exact_route(s);
        let ghost regex = regex_route(s);
        let n: usize = self.routes.len();
        assert(routes.len() == n);

        // 1. Exact match
        let mut i: usize = 0;
        while i < n
            invariant
                i <= n,
                n == self.routes@.len(),
                t == self@,
                routes == t.routes,
                s == host@,
                s == ascii_lower(sni@),
                t.wf(),
                exact == exact_route(s),
                forall|j: int| 0 <= j < i ==> !exact_hit(#[trigger] routes[j], s),
            decreases n - i,
        {
            assert(routes[i as int] == self.routes@[i as int]@);
            if let RoutePattern::Exact(exact_host) = &self.routes[i].pattern {
                if *exact_host == host {
                    proof {
                        assert(is_first(routes, exact, i as int));
                        let k = choose|k: int| is_first(routes, exact, k);
                        lemma_first_unique(routes, exact, i as int, k);
                    }
                    return self.backend_addr(self.routes[i].backend.as_str());
                }
            }
            i = i + 1;
        }
        assert(!exists|k: int| is_first(routes, exact, k));

        // 2. Wildcard: the longest suffix wins
        let mut best: Option<(usize, usize)> = None;
        let mut i: usize = 0;
        while i < n
            invariant
                i <= n,
                n == self.routes@.len(),
                t == self@,
                routes == t.routes,
                s == host@,
                s == ascii_lower(sni@),
                t.wf(),
                best is None ==> forall|j: int| 0 <= j < i ==> !wildcard_hit(#[trigger] routes[j], s),
                best matches Some((b, l)) ==> {
                    &&& b < i
                    &&& wildcard_hit(routes[b as int], s)
                    &&& l == suffix_len(routes[b as int])
                    &&& forall|j: int|
                        0 <= j < i && wildcard_hit(#[trigger] routes[j], s) ==> suffix_len(routes[j])
                            <= l && (j < b ==> suffix_len(routes[j]) < l)
                },
            decreases n - i,
        {
            assert(routes[i as int] == self.routes@[i as int]@);
            if let RoutePattern::Wildcard { suffix } = &self.routes[i].pattern {
                if wildcard_matches(host.as_str(), suffix.as_str()) {
                    let len: usize = suffix.as_str().len();
                    let better: bool = match best {
                        Some((_, l)) => len > l,
                        None => true,
                    };
                    if better {
                        best = Some((i, len));
                    }
                }
            }
            i = i + 1;
        }
        if let Some((b, _)) = best {
            proof {
                assert(is_best_wildcard(routes, s, b as int));
                let k = choose|k: int| is_best_wildcard(routes, s, k);
                lemma_best_unique(routes, s, b as int, k);
            }
            return self.backend_addr(self.routes[b].backend.as_str());
        }
        assert(!exists|k: int| is_best_wildcard(routes, s, k));

        // 3. Regex: the first match in configuration order
        let mut i: usize = 0;
        while i < n
            invariant
                i <= n,
                n == self.routes@.len(),
                t == self@,
                routes == t.routes,
                s == host@,
                s == ascii_lower(sni@),
                t.wf(),
                regex == regex_route(s),
                !exists|k: int| is_first(routes, exact_route(s), k),
                !exists|k: int| is_best_wildcard(routes, s, k),
                forall|j: int| 0 <= j < i ==> !regex_hit(#[trigger] routes[j], s),
            decreases n - i,
        {
            assert(routes[i as int] == self.routes@[i as int]@);
            if let RoutePattern::Regex(re) = &self.routes[i].pattern {
                if re.is_match(host.as_str()) {
                    proof {
                        assert(is_first(routes, regex, i as int));
                        let k = choose|k: int| is_first(routes, regex, k);
                        lemma_first_unique(routes, regex, i as int, k);
                    }
                    return self.backend_addr(self.routes[i].backend.as_str());
                }
            }
            i = i + 1;
        }
        assert(!exists|k: int| is_first(routes, regex, k));

        // 4. Default backend
        if let Some(name) = &self.default_backend {
            return self.backend_addr(name.as_str());
        }
        Err(SniProxyError::NoRoute { sni: host })
    }
}


proof fn lemma_first_exists(routes: Seq<RouteView>, hit: spec_fn(RouteView) -> bool, i: int)
    requires
        0 <= i < routes.len(),
        hit(routes[i]),
    ensures
        exists|k: int| is_first(routes, hit, k),
    decreases i,
{
    if exists|j: int| 0 <= j < i && hit(#[trigger] routes[j]) {
        let j = choose|j: int| 0 <= j < i && hit(#[trigger] routes[j]);
        lemma_first_exists(routes, hit, j);
    } else {
        assert(is_first(routes, hit, i));
    }
}

/// Among the first `m` routes, a matching wildcard route with the longest
/// suffix, first among equals.
spec fn is_best_wildcard_upto(routes: Seq<RouteView>, sni: Seq<char>, m: int, i: int) -> bool {
    &&& 0 <= i < m
    &&& wildcard_hit(routes[i], sni)
    &&& forall|j: int|
        0 <= j < m && wildcard_hit(#[trigger] routes[j], sni) ==> suffix_len(routes[j])
            <= suffix_len(routes[i]) && (j < i ==> suffix_len(routes[j]) < suffix_len(routes[i]))
}

proof fn lemma_best_exists_upto(routes: Seq<RouteView>, sni: Seq<char>, m: int)
    requires
        0 <= m <= routes.len(),
        exists|j: int| 0 <= j < m && wildcard_hit(#[trigger] routes[j], sni),
    ensures
        exists|i: int| is_best_wildcard_upto(routes, sni, m, i),
    decreases m,
{
    let last = m - 1;
    if exists|j: int| 0 <= j < last && wildcard_hit(#[trigger] routes[j], sni) {
        lemma_best_exists_upto(routes, sni, last);
        let b = choose|i: int| is_best_wildcard_upto(routes, sni, last, i);
        if wildcard_hit(routes[last], sni) && suffix_len(routes[last]) > suffix_len(routes[b]) {
            assert(is_best_wildcard_upto(routes, sni, m, last));
        } else {
            assert(is_best_wildcard_upto(routes, sni, m, b));
        }
    } else {
        assert(wildcard_hit(routes[last], sni));
        assert(is_best_wildcard_upto(routes, sni, m, last));
    }
}

/// Upper and lower case do not matter: two host names that differ only in
/// ASCII case resolve alike, so a name resolves as its lower-case and its
/// upper-case forms do.
pub proof fn lemma_resolve_ignores_case(t: RouteTableView, a: Seq<char>, b: Seq<char>)
    requires
        ascii_lower(a) == ascii_lower(b),
    ensures
        spec_resolve(t, a) == spec_resolve(t, b),
        spec_resolve(t, a) == spec_resolve(t, ascii_lower(a)),
        spec_resolve(t, a) == spec_resolve(t, ascii_upper(a)),
{
    lemma_ascii_lower(a);
    lemma_upper_then_lower(a);
}

/// A table whose routes and default name defined backends never answers
/// `UnknownBackend`.
pub proof fn lemma_resolve_never_unknown_backend(t: RouteTableView, sni: Seq<char>)
    requires
        t.wf(),
    ensures
        !(spec_resolve(t, sni) matches Err(ErrorView::UnknownBackend { .. })),
{
    let s = ascii_lower(sni);
    if exists|i: int| is_first(t.routes, exact_route(s), i) {
        let k = choose|i: int| is_first(t.routes, exact_route(s), i);
        assert(find_backend(t.backends, t.routes[k].backend) is Some);
    } else if exists|i: int| is_best_wildcard(t.routes, s, i) {
        let k = choose|i: int| is_best_wildcard(t.routes, s, i);
        assert(find_backend(t.backends, t.routes[k].backend) is Some);
    } else if exists|i: int| is_first(t.routes, regex_route(s), i) {
        let k = choose|i: int| is_first(t.routes, regex_route(s), i);
        assert(find_backend(t.backends, t.routes[k].backend) is Some);
    }
}

/// A host name finds no route exactly when no exact, wildcard or regex route
/// accepts it and no default backend is set; the error then names the host
/// in lower case.
pub proof fn lemma_no_route_iff(t: RouteTableView, sni: Seq<char>)
    ensures
        spec_resolve(t, sni) == Err::<Seq<char>, ErrorView>(
            ErrorView::NoRoute { sni: ascii_lower(sni) },
        ) <==> {
            &&& forall|i: int|
                0 <= i < t.routes.len() ==> !exact_hit(#[trigger] t.routes[i], ascii_lower(sni))
                    && !wildcard_hit(t.routes[i], ascii_lower(sni)) && !regex_hit(
                    t.routes[i],
                    ascii_lower(sni),
                )
            &&& t.default_backend is None
        },
        spec_resolve(t, sni) matches Err(ErrorView::NoRoute { sni: h }) ==> h == ascii_lower(sni),
{
    let s = ascii_lower(sni);
    let routes = t.routes;
    if exists|i: int| 0 <= i < routes.len() && exact_hit(#[trigger] routes[i], s) {
        let i = choose|i: int| 0 <= i < routes.len() && exact_hit(#[trigger] routes[i], s);
        lemma_first_exists(routes, exact_route(s), i);
    } else if exists|i: int| 0 <= i < routes.len() && wildcard_hit(#[trigger] routes[i], s) {
        lemma_best_exists_upto(routes, s, routes.len() as int);
        let b = choose|b: int| is_best_wildcard_upto(routes, s, routes.len() as int, b);
        assert(is_best_wildcard(routes, s, b));
    } else if exists|i: int| 0 <= i < routes.len() && regex_hit(#[trigger] routes[i], s) {
        let i = choose|i: int| 0 <= i < routes.len() && regex_hit(#[trigger] routes[i], s);
        lemma_first_exists(routes, regex_route(s), i);
    }
}

/// When the first route whose pattern is exactly the lower-cased host name
/// is route `i`, and its backend is entry `k`, the host resolves to entry
/// `k`'s address, whatever wildcard, regex or default routes also exist.
pub proof fn lemma_exact_route_wins(t: RouteTableView, sni: Seq<char>, i: int, k: int)
    requires
        t.wf(),
        0 <= i < t.routes.len(),
        t.routes[i].pattern == PatternView::Exact(ascii_lower(sni)),
        forall|j: int|
            0 <= j < i ==> (#[trigger] t.routes[j]).pattern != PatternView::Exact(ascii_lower(sni)),
        0 <= k < t.backends.len(),
        t.backends[k].0 == t.routes[i].backend,
    ensures
        spec_resolve(t, sni) == Ok::<Seq<char>, ErrorView>(t.backends[k].1),
{
    let s = ascii_lower(sni);
    assert(is_first(t.routes, exact_route(s), i));
    let c = choose|c: int| is_first(t.routes, exact_route(s), c);
    lemma_first_unique(t.routes, exact_route(s), i, c);
    lemma_find_backend_lookup(t.backends, t.routes[i].backend, k);
}

/// When no route is exactly the lower-cased host name and route `i` is the
/// wildcard route that covers it with the longest suffix (in bytes), the
/// first among equals, the host resolves to the address of route `i`'s
/// backend (entry `k`), whatever regex routes or default backend exist.
pub proof fn lemma_best_wildcard_wins(t: RouteTableView, sni: Seq<char>, i: int, k: int)
    requires
        t.wf(),
        forall|j: int|
            0 <= j < t.routes.len() ==> (#[trigger] t.routes[j]).pattern != PatternView::Exact(
                ascii_lower(sni),
            ),
        0 <= i < t.routes.len(),
        t.routes[i].pattern matches PatternView::Wildcard(w) && (ascii_lower(sni) == w || ends_with(
            ascii_lower(sni),
            seq!['.'] + w,
        )),
        forall|j: int|
            0 <= j < t.routes.len() ==> ((#[trigger] t.routes[j]).pattern matches PatternView::Wildcard(
                v,
            ) ==> ((ascii_lower(sni) == v || ends_with(ascii_lower(sni), seq!['.'] + v)) ==> {
                &&& (encode_utf8(v).len() as usize) <= (encode_utf8(
                    t.routes[i].pattern->Wildcard_0,
                ).len() as usize)
                &&& j < i ==> (encode_utf8(v).len() as usize) < (encode_utf8(
                    t.routes[i].pattern->Wildcard_0,
                ).len() as usize)
            })),
        0 <= k < t.backends.len(),
        t.backends[k].0 == t.routes[i].backend,
    ensures
        spec_resolve(t, sni) == Ok::<Seq<char>, ErrorView>(t.backends[k].1),
{
    let s = ascii_lower(sni);
    assert(!exists|c: int| is_first(t.routes, exact_route(s), c)) by {
        if exists|c: int| is_first(t.routes, exact_route(s), c) {
            let c = choose|c: int| is_first(t.routes, exact_route(s), c);
            assert(exact_hit(t.routes[c], s));
        }
    }
    assert(is_best_wildcard(t.routes, s, i));
    let c = choose|c: int| is_best_wildcard(t.routes, s, c);
    lemma_best_unique(t.routes, s, i, c);
    lemma_find_backend_lookup(t.backends, t.routes[i].backend, k);
}

/// When no exact or wildcard route covers the lower-cased host name and
/// route `i` is the first regex route that matches it, the host resolves to
/// the address of route `i`'s backend (entry `k`), whatever the default.
pub proof fn lemma_first_regex_wins(t: RouteTableView, sni: Seq<char>, i: int, k: int)
    requires
        t.wf(),
        forall|j: int|
            0 <= j < t.routes.len() ==> (#[trigger] t.routes[j]).pattern != PatternView::Exact(
                ascii_lower(sni),
            ) && !(t.routes[j].pattern matches PatternView::Wildcard(v) && (ascii_lower(sni) == v
                || ends_with(ascii_lower(sni), seq!['.'] + v))),
        0 <= i < t.routes.len(),
        t.routes[i].pattern matches PatternView::Regex(p) && regex_is_match(p, ascii_lower(sni)),
        forall|j: int|
            0 <= j < i ==> !((#[trigger] t.routes[j]).pattern matches PatternView::Regex(q)
                && regex_is_match(q, ascii_lower(sni))),
        0 <= k < t.backends.len(),
        t.backends[k].0 == t.routes[i].backend,
    ensures
        spec_resolve(t, sni) == Ok::<Seq<char>, ErrorView>(t.backends[k].1),
{
    let s = ascii_lower(sni);
    assert(!exists|c: int| is_first(t.routes, exact_route(s), c)) by {
        if exists|c: int| is_first(t.routes, exact_route(s), c) {
            let c = choose|c: int| is_first(t.routes, exact_route(s), c);
            assert(exact_hit(t.routes[c], s));
        }
    }
    assert(!exists|c: int| is_best_wildcard(t.routes, s, c)) by {
        if exists|c: int| is_best_wildcard(t.routes, s, c) {
            let c = choose|c: int| is_best_wildcard(t.routes, s, c);
            assert(wildcard_hit(t.routes[c], s));
        }
    }
    assert(is_first(t.routes, regex_route(s), i));
    let c = choose|c: int| is_first(t.routes, regex_route(s), c);
    lemma_first_unique(t.routes, regex_route(s), i, c);
    lemma_find_backend_lookup(t.backends, t.routes[i].backend, k);
}

/// When no route of any kind covers the lower-cased host name, the default
/// backend (entry `k`) answers when one is set, and otherwise the answer is
/// `NoRoute` naming the lower-cased host.
pub proof fn lemma_default_only_when_nothing_matches(t: RouteTableView, sni: Seq<char>, k: int)
    requires
        t.wf(),
        forall|j: int|
            0 <= j < t.routes.len() ==> (#[trigger] t.routes[j]).pattern != PatternView::Exact(
                ascii_lower(sni),
            ) && !(t.routes[j].pattern matches PatternView::Wildcard(v) && (ascii_lower(sni) == v
                || ends_with(ascii_lower(sni), seq!['.'] + v))) && !(t.routes[j].pattern matches PatternView::Regex(
                q,
            ) && regex_is_match(q, ascii_lower(sni))),
    ensures
        t.default_backend is None ==> spec_resolve(t, sni) == Err::<Seq<char>, ErrorView>(
            ErrorView::NoRoute { sni: ascii_lower(sni) },
        ),
        t.default_backend matches Some(d) && 0 <= k < t.backends.len() && t.backends[k].0 == d
            ==> spec_resolve(t, sni) == Ok::<Seq<char>, ErrorView>(t.backends[k].1),
{
    let s = ascii_lower(sni);
    assert(!exists|c: int| is_first(t.routes, exact_route(s), c)) by {
        if exists|c: int| is_first(t.routes, exact_route(s), c) {
            let c = choose|c: int| is_first(t.routes, exact_route(s), c);
            assert(exact_hit(t.routes[c], s));
        }
    }
    assert(!exists|c: int| is_best_wildcard(t.routes, s, c)) by {
        if exists|c: int| is_best_wildcard(t.routes, s, c) {
            let c = choose|c: int| is_best_wildcard(t.routes, s, c);
            assert(wildcard_hit(t.routes[c], s));
        }
    }
    assert(!exists|c: int| is_first(t.routes, regex_route(s), c)) by {
        if exists|c: int| is_first(t.routes, regex_route(s), c) {
            let c = choose|c: int| is_first(t.routes, regex_route(s), c);
            assert(regex_hit(t.routes[c], s));
        }
    }
    if let Some(d) = t.default_backend {
        if 0 <= k < t.backends.len() && t.backends[k].0 == d {
            lemma_find_backend_lookup(t.backends, d, k);
        }
    }
}

/// Some entry of `backends` is named `name`.
pub open spec fn names_backend(backends: Seq<(Seq<char>, Seq<char>)>, name: Seq<char>) -> bool {
    exists|k: int| 0 <= k < backends.len() && backends[k].0 == name
}

proof fn lemma_find_backend_some(backends: Seq<(Seq<char>, Seq<char>)>, name: Seq<char>)
    ensures
        find_backend(backends, name) is Some <==> names_backend(backends, name),
    decreases backends.len(),
{
    if backends.len() > 0 {
        let r = backends.drop_first();
        lemma_find_backend_some(r, name);
        if names_backend(r, name) {
            let k = choose|k: int| 0 <= k < r.len() && r[k].0 == name;
            assert(backends[k + 1].0 == name);
        }
        if names_backend(backends, name) && backends[0].0 != name {
            let k = choose|k: int| 0 <= k < backends.len() && backends[k].0 == name;
            assert(r[k - 1].0 == name);
        }
    }
}

/// A configured line `pattern = backend` can be used: its backend is
/// defined; after `regex:` stands a pattern that compiles; after `*.` (when
/// it is not a regex) stands a non-empty suffix.
pub open spec fn usable_route(line: (Seq<char>, Seq<char>), backends: Seq<(Seq<char>, Seq<char>)>) -> bool {
    &&& names_backend(backends, line.1)
    &&& starts_with(line.0, "regex:"@) ==> regex_compile_error(
        line.0.subrange("regex:"@.len() as int, line.0.len() as int),
    ) is None
    &&& !starts_with(line.0, "regex:"@) && starts_with(line.0, "*."@) ==> line.0.len() > "*."@.len()
}

proof fn lemma_routes_ok(routes: Seq<(Seq<char>, Seq<char>)>, backends: Seq<(Seq<char>, Seq<char>)>)
    ensures
        spec_routes(routes, backends) is Ok <==> forall|k: int|
            0 <= k < routes.len() ==> usable_route(#[trigger] routes[k], backends),
        spec_routes(routes, backends) matches Ok(made) ==> made.len() == routes.len() && forall|k: int|
            0 <= k < routes.len() ==> (#[trigger] made[k]).backend == routes[k].1,
    decreases routes.len(),
{
    if routes.len() > 0 {
        let init = routes.drop_last();
        lemma_routes_ok(init, backends);
        let last = routes.last();
        lemma_find_backend_some(backends, last.1);
        assert(forall|k: int| 0 <= k < init.len() ==> init[k] == routes[k]);
        if spec_routes(routes, backends) is Ok {
            assert forall|k: int| 0 <= k < routes.len() implies usable_route(
                #[trigger] routes[k],
                backends,
            ) by {
                if k < init.len() {
                    assert(routes[k] == init[k]);
                }
            }
        }
        if forall|k: int| 0 <= k < routes.len() ==> usable_route(#[trigger] routes[k], backends) {
            assert(forall|k: int| 0 <= k < init.len() ==> usable_route(#[trigger] init[k], backends))
                by {
                assert forall|k: int| 0 <= k < init.len() implies usable_route(
                    #[trigger] init[k],
                    backends,
                ) by {
                    assert(init[k] == routes[k]);
                }
            }
            assert(usable_route(routes[routes.len() - 1], backends));
        }
    }
}

/// A configuration makes a table exactly when every route line is usable
/// and the default backend, when one is given, is defined; whichever routes
/// also name the default does not matter. The table then keeps the backends
/// and the default as given, and one route per line, in order, with that
/// line's backend.
pub proof fn lemma_from_config_accepts(
    routes: Seq<(Seq<char>, Seq<char>)>,
    backends: Seq<(Seq<char>, Seq<char>)>,
    default_backend: Option<Seq<char>>,
)
    ensures
        spec_from_config(routes, backends, default_backend) is Ok <==> {
            &&& forall|k: int| 0 <= k < routes.len() ==> usable_route(#[trigger] routes[k], backends)
            &&& default_backend matches Some(d) ==> names_backend(backends, d)
        },
        spec_from_config(routes, backends, default_backend) matches Ok(t) ==> {
            &&& t.backends == backends
            &&& t.default_backend == default_backend
            &&& t.routes.len() == routes.len()
            &&& forall|k: int| 0 <= k < routes.len() ==> (#[trigger] t.routes[k]).backend == routes[k].1
        },
{
    lemma_routes_ok(routes, backends);
    if let Some(d) = default_backend {
        lemma_find_backend_some(backends, d);
    }
}

} // verus!
