//! The route table and the dispatcher.
//!
//! Routes are kept in registration order. A request path is first looked up
//! exactly, by its normalised text and method, through an index keyed by a
//! hash of the two, whose cost does not grow with the number of routes;
//! failing that, the routes of its method are tried in registration order
//! and the first whose template matches wins.

use vstd::prelude::*;
use vstd::string::*;

use crate::method::{method_named, method_text, Method};
use crate::params::{lemma_pairs_map_dom, lemma_pairs_map_values, pair_names, pairs_map, Params};
use crate::pattern::{
    captures,
    lemma_captures_follow_names,
    pairs_view,
    path_segments,
    pattern_matches,
    pieces,
    template_valid,
    variable_names,
    Matcher,
};
use crate::producer::Producer;
use crate::response::{ConfigError, Resp};
use crate::text::{lemma_normalize_idempotent, normalize, remove_trailling_slash, strings_view};
use std::collections::HashMap;

verus! {

broadcast use vstd::std_specs::hash::group_hash_axioms;

/// The modulus of the route keys: a prime below 2^30.
pub const KEY_MODULUS: u64 = 1_000_000_007;

/// One step of the route key: the key so far times 31, plus the character.
pub open spec fn key_step(h: u64, c: char) -> u64 {
    ((h as int * 31 + c as u32 as int) % (KEY_MODULUS as int)) as u64
}

/// The key of `s`, starting from `h`.
pub open spec fn text_key(h: u64, s: Seq<char>) -> u64
    decreases s.len(),
{
    if s.len() == 0 {
        h
    } else {
        key_step(text_key(h, s.drop_last()), s.last())
    }
}

/// The key that a method's templates start from.
pub open spec fn method_seed(m: Method) -> u64 {
    match m {
        Method::Get => 1,
        Method::Post => 2,
        Method::Head => 3,
        Method::Put => 4,
        Method::Delete => 5,
        Method::Connect => 6,
    }
}

/// The key under which the exact-match index files a method and template.
pub open spec fn route_key(m: Method, template: Seq<char>) -> u64 {
    text_key(method_seed(m), template)
}

/// Position `i` is filed in bucket `b`.
pub open spec fn files(b: Seq<usize>, i: int) -> bool {
    exists|w: int| 0 <= w < b.len() && b[w] as int == i
}

/// The key of `method` and `template`.
fn key_of(method: Method, template: &str) -> (r: u64)
    ensures
        r == route_key(method, template@),
{
    let mut h: u64 = match method {
        Method::Get => 1,
        Method::Post => 2,
        Method::Head => 3,
        Method::Put => 4,
        Method::Delete => 5,
        Method::Connect => 6,
    };
    let n = template.unicode_len();
    let mut i: usize = 0;
    assert(template@.subrange(0, 0) =~= Seq::<char>::empty());
    while i < n
        invariant
            n == template@.len(),
            i <= n,
            h < KEY_MODULUS,
            h == text_key(method_seed(method), template@.subrange(0, i as int)),
        decreases n - i,
    {
        let c = template.get_char(i);
        assert(template@.subrange(0, i + 1).drop_last() =~= template@.subrange(0, i as int));
        h = (h * 31 + c as u32 as u64) % KEY_MODULUS;
        i = i + 1;
    }
    assert(template@.subrange(0, n as int) =~= template@);
    h
}

/// The model of a route table: each route's method and normalised template,
/// in registration order.
pub type Table = Seq<(Method, Seq<char>)>;

/// The first route at or after `i` registered for exactly `template` and `m`.
pub open spec fn exact_from(t: Table, template: Seq<char>, m: Method, i: int) -> Option<int>
    decreases t.len() - i,
{
    if i < 0 || i >= t.len() {
        None
    } else if t[i] == (m, template) {
        Some(i)
    } else {
        exact_from(t, template, m, i + 1)
    }
}

/// The route registered for the normalised text of `path` and for `m`.
pub open spec fn exact_index(t: Table, path: Seq<char>, m: Method) -> Option<int> {
    exact_from(t, normalize(path), m, 0)
}

/// Route `i` is registered for `m` and its template matches `segs`.
pub open spec fn is_candidate(t: Table, i: int, segs: Seq<Seq<char>>, m: Method) -> bool {
    t[i].0 == m && pattern_matches(pieces(t[i].1), segs)
}

/// The first route at or after `i` that matches `segs` for `m`.
pub open spec fn first_match_from(t: Table, segs: Seq<Seq<char>>, m: Method, i: int) -> Option<
    int,
>
    decreases t.len() - i,
{
    if i < 0 || i >= t.len() {
        None
    } else if is_candidate(t, i, segs, m) {
        Some(i)
    } else {
        first_match_from(t, segs, m, i + 1)
    }
}

/// The first route, in registration order, whose template matches `path` for `m`.
pub open spec fn first_match(t: Table, path: Seq<char>, m: Method) -> Option<int> {
    first_match_from(t, path_segments(path), m, 0)
}

/// The parameters that route `i` hands its handler for `path`: the captured
/// variables, with the caller's `params` laid over them.
pub open spec fn merged_params(
    t: Table,
    i: int,
    path: Seq<char>,
    params: Map<Seq<char>, Seq<char>>,
) -> Map<Seq<char>, Seq<char>> {
    pairs_map(captures(pieces(t[i].1), path_segments(path))).union_prefer_right(params)
}

/// Which route serves `path` for `m`, and with which parameters; `None`
/// where no route does.
pub open spec fn resolution(
    t: Table,
    path: Seq<char>,
    m: Method,
    params: Map<Seq<char>, Seq<char>>,
) -> Option<(int, Map<Seq<char>, Seq<char>>)> {
    match exact_index(t, path, m) {
        Some(i) => Some((i, params)),
        None => match first_match(t, path, m) {
            Some(i) => Some((i, merged_params(t, i, path, params))),
            None => None,
        },
    }
}

/// The table after registering `template` for `m`: a route already
/// registered for the same normalised template and method keeps its place,
/// any other is appended.
pub open spec fn table_after_add(t: Table, template: Seq<char>, m: Method) -> Table {
    match exact_from(t, normalize(template), m, 0) {
        Some(i) => t,
        None => t.push((m, normalize(template))),
    }
}

/// The handlers after registering `h` for `template` and `m`: the new
/// handler replaces that of a route registered for the same pair.
pub open spec fn handlers_after_add<H>(
    hs: Seq<H>,
    t: Table,
    template: Seq<char>,
    m: Method,
    h: H,
) -> Seq<H> {
    match exact_from(t, normalize(template), m, 0) {
        Some(i) => hs.update(i, h),
        None => hs.push(h),
    }
}

/// The message of the routing error for `path` and `m`.
pub open spec fn routing_message(path: Seq<char>, m: Method) -> Seq<char> {
    "route: "@ + path + ", method: "@ + method_text(m) + ", don't exist"@
}

/// `exact_from` finds the first route at or after `i` that equals the key.
pub proof fn lemma_exact_from(t: Table, template: Seq<char>, m: Method, i: int)
    requires
        0 <= i,
    ensures
        exact_from(t, template, m, i) matches Some(k) ==> i <= k < t.len() && t[k] == (m, template)
            && forall|j: int| i <= j < k ==> t[j] != (m, template),
        exact_from(t, template, m, i) is None ==> forall|j: int| i <= j < t.len() ==> t[j] != (m, template),
    decreases t.len() - i,
{
    if i < t.len() && t[i] != (m, template) {
        lemma_exact_from(t, template, m, i + 1);
    }
}

/// `first_match_from` finds the first candidate at or after `i`.
pub proof fn lemma_first_match_from(t: Table, segs: Seq<Seq<char>>, m: Method, i: int)
    requires
        0 <= i,
    ensures
        first_match_from(t, segs, m, i) matches Some(k) ==> i <= k < t.len() && is_candidate(t, k, segs, m)
            && forall|j: int| i <= j < k ==> !is_candidate(t, j, segs, m),
        first_match_from(t, segs, m, i) is None ==> forall|j: int| i <= j < t.len() ==> !is_candidate(t, j, segs, m),
    decreases t.len() - i,
{
    if i < t.len() && !is_candidate(t, i, segs, m) {
        lemma_first_match_from(t, segs, m, i + 1);
    }
}

/// No two routes share a method and a template.
pub open spec fn routes_unique(t: Table) -> bool {
    forall|i: int, j: int| 0 <= i < j < t.len() ==> #[trigger] t[i] != #[trigger] t[j]
}

/// A registered template is found by exact lookup: after `h` is registered
/// for `template` and `m`, a request whose path normalises to the same text
/// resolves to a route that holds `h`, with the caller's parameters as they
/// are, whatever else the table holds.
pub proof fn lemma_registered_template_found<H>(
    t: Table,
    hs: Seq<H>,
    template: Seq<char>,
    m: Method,
    h: H,
    path: Seq<char>,
    params: Map<Seq<char>, Seq<char>>,
)
    requires
        routes_unique(t),
        hs.len() == t.len(),
        normalize(path) == normalize(template),
    ensures
        resolution(table_after_add(t, template, m), path, m, params) matches Some((k, p)) && p
            == params && handlers_after_add(hs, t, template, m, h)[k] == h,
{
    let key = normalize(template);
    lemma_exact_from(t, key, m, 0);
    let t2 = table_after_add(t, template, m);
    match exact_from(t, key, m, 0) {
        Some(i) => {
            assert(t2 == t);
        },
        None => {
            assert(t2 == t.push((m, key)));
            lemma_exact_from(t2, key, m, 0);
            if exact_from(t2, key, m, 0) != Some(t.len() as int) {
                assert(t2[t.len() as int] == (m, key));
            }
        },
    }
}

/// What route `i` hands its handler for `path`, when its template matches:
/// every parameter of the caller, as it is; each variable of the template
/// that the caller does not pass, bound to what it captured (the path
/// segment at its place, left to right). Where the variable names are
/// distinct and none of them is the caller's, that is exactly one
/// parameter per variable plus the caller's.
pub proof fn lemma_handler_receives_variables(
    t: Table,
    i: int,
    path: Seq<char>,
    params: Map<Seq<char>, Seq<char>>,
)
    requires
        0 <= i < t.len(),
        pattern_matches(pieces(t[i].1), path_segments(path)),
        params.dom().finite(),
    ensures
        ({
            let names = variable_names(pieces(t[i].1));
            let caps = captures(pieces(t[i].1), path_segments(path));
            let merged = merged_params(t, i, path, params);
            &&& caps.len() == names.len()
            &&& forall|key: Seq<char>|
                #[trigger] params.contains_key(key) ==> merged.contains_key(key) && merged[key]
                    == params[key]
            &&& names.no_duplicates() ==> forall|k: int|
                0 <= k < names.len() && !params.contains_key(#[trigger] names[k])
                    ==> merged.contains_key(names[k]) && merged[names[k]] == caps[k].1
            &&& names.no_duplicates() && (forall|k: int|
                0 <= k < names.len() ==> !params.contains_key(#[trigger] names[k])) ==> merged.len()
                == names.len() + params.len()
        }),
{
    let pattern = pieces(t[i].1);
    let segs = path_segments(path);
    let names = variable_names(pattern);
    let caps = captures(pattern, segs);
    let pm = pairs_map(caps);
    let merged = merged_params(t, i, path, params);
    lemma_captures_follow_names(pattern, segs);
    assert(pair_names(caps) =~= names) by {
        assert forall|k: int| 0 <= k < names.len() implies pair_names(caps)[k] == names[k] by {
            assert(caps[k].0 == names[k]);
        }
    }
    lemma_pairs_map_dom(caps);
    if names.no_duplicates() {
        lemma_pairs_map_values(caps);
        assert forall|k: int|
            0 <= k < names.len() && !params.contains_key(#[trigger] names[k]) implies merged.contains_key(
                names[k],
            ) && merged[names[k]] == caps[k].1 by {
            assert(caps[k].0 == names[k]);
            assert(pm.contains_key(caps[k].0));
        }
        if forall|k: int| 0 <= k < names.len() ==> !params.contains_key(#[trigger] names[k]) {
            names.unique_seq_to_set();
            vstd::seq_lib::seq_to_set_is_finite(names);
            assert(pm.dom().disjoint(params.dom())) by {
                assert forall|key: Seq<char>| pm.dom().contains(key) implies !params.dom().contains(key) by {
                    assert(names.to_set().contains(key));
                    let k = choose|k: int| 0 <= k < names.len() && names[k] == key;
                    assert(!params.contains_key(names[k]));
                }
            }
            assert(merged.dom() =~= pm.dom() + params.dom());
            vstd::set_lib::lemma_set_disjoint_lens(pm.dom(), params.dom());
        }
    }
}

/// Precedence follows registration order: where no route holds the path's
/// text exactly, the route picked is the first registered one whose
/// template matches, and no earlier route of that method matches.
pub proof fn lemma_registration_order(
    t: Table,
    path: Seq<char>,
    m: Method,
    params: Map<Seq<char>, Seq<char>>,
)
    requires
        exact_index(t, path, m) is None,
    ensures
        resolution(t, path, m, params) matches Some((i, p)) ==> is_candidate(
            t,
            i,
            path_segments(path),
            m,
        ) && (forall|j: int| 0 <= j < i ==> !is_candidate(t, j, path_segments(path), m)) && p
            == merged_params(t, i, path, params),
        resolution(t, path, m, params) is None ==> forall|j: int|
            0 <= j < t.len() ==> !is_candidate(t, j, path_segments(path), m),
{
    lemma_first_match_from(t, path_segments(path), m, 0);
}

/// A trailing slash on the request path changes nothing in its resolution.
pub proof fn lemma_trailing_slash_ignored(
    t: Table,
    path: Seq<char>,
    m: Method,
    params: Map<Seq<char>, Seq<char>>,
)
    ensures
        resolution(t, path.push('/'), m, params) == resolution(t, path, m, params),
{
    assert(path.push('/').drop_last() =~= path);
}

/// Resolution depends on the table, the path, the method and the content of
/// the caller's parameters alone: two parameter maps with the same pairs,
/// however they were built, resolve to the same route with the same
/// parameters.
pub proof fn lemma_resolution_deterministic(
    t: Table,
    path: Seq<char>,
    m: Method,
    a: &Params,
    b: &Params,
)
    requires
        a@ == b@,
    ensures
        resolution(t, path, m, a@) == resolution(t, path, m, b@),
{
}

/// The routing error's message holds the request path.
pub proof fn lemma_routing_message_names_path(path: Seq<char>, m: Method)
    ensures
        routing_message(path, m).subrange(7, 7 + path.len() as int) == path,
{
    reveal_strlit("route: ");
    let msg = routing_message(path, m);
    assert(msg.subrange(7, 7 + path.len() as int) =~= path);
}

/// The views of a sequence of string slices.
pub open spec fn strs_view(v: Seq<&str>) -> Seq<Seq<char>> {
    v.map_values(|s: &str| s@)
}

/// A route descriptor: handler, path template, method name, and the
/// variable names that the template declares.
pub type Descriptor<'a, H> = (H, &'a str, &'a str, Vec<&'a str>);

/// The descriptor names a known method and a valid template, and declares
/// exactly the template's variables, in order.
pub open spec fn descriptor_ok<H>(d: Descriptor<'_, H>) -> bool {
    &&& method_named(d.2@) is Some
    &&& template_valid(d.1@)
    &&& strs_view(d.3@) == variable_names(pieces(d.1@))
}

/// `e` is the error that the first failing check on `d` reports.
pub open spec fn error_fits<H>(d: Descriptor<'_, H>, e: ConfigError) -> bool {
    if method_named(d.2@) is None {
        e is UnknownMethod
    } else if !template_valid(d.1@) {
        e is InvalidTemplate
    } else {
        e is VariableMismatch
    }
}

/// The table that registering the descriptors in order gives.
pub open spec fn table_of<H>(ds: Seq<Descriptor<'_, H>>) -> Table
    decreases ds.len(),
{
    if ds.len() == 0 {
        Table::empty()
    } else {
        let d = ds.last();
        if descriptor_ok(d) {
            table_after_add(table_of(ds.drop_last()), d.1@, method_named(d.2@)->Some_0)
        } else {
            table_of(ds.drop_last())
        }
    }
}

/// The positions of the descriptors that fail their checks, in order.
pub open spec fn bad_indices<H>(ds: Seq<Descriptor<'_, H>>) -> Seq<int>
    decreases ds.len(),
{
    if ds.len() == 0 {
        Seq::empty()
    } else if descriptor_ok(ds.last()) {
        bad_indices(ds.drop_last())
    } else {
        bad_indices(ds.drop_last()).push(ds.len() - 1)
    }
}

/// The handlers that registering the descriptors in order gives.
pub open spec fn handlers_of<H>(ds: Seq<Descriptor<'_, H>>) -> Seq<H>
    decreases ds.len(),
{
    if ds.len() == 0 {
        Seq::empty()
    } else {
        let d = ds.last();
        if descriptor_ok(d) {
            handlers_after_add(
                handlers_of(ds.drop_last()),
                table_of(ds.drop_last()),
                d.1@,
                method_named(d.2@)->Some_0,
                d.0,
            )
        } else {
            handlers_of(ds.drop_last())
        }
    }
}

/// Checks one descriptor: its method, its template, and its declared
/// variable names, in that order.
fn check_descriptor<H>(desc: &Descriptor<'_, H>) -> (r: Result<Method, ConfigError>)
    ensures
        r is Ok <==> descriptor_ok(*desc),
        r matches Ok(m) ==> method_named(desc.2@) == Some(m),
        r matches Err(e) ==> error_fits(*desc, e),
{
    let method = match Method::from_name(desc.2) {
        Some(m) => m,
        None => {
            return Err(ConfigError::UnknownMethod(desc.2.to_owned()));
        },
    };
    let matcher = match Matcher::compile(desc.1) {
        Ok(m) => m,
        Err(e) => {
            return Err(e);
        },
    };
    if !same_names(matcher.variable_names(), &desc.3) {
        return Err(ConfigError::VariableMismatch(desc.1.to_owned()));
    }
    Ok(method)
}

/// Whether `names` and `declared` hold the same names in the same order.
fn same_names(names: &Vec<String>, declared: &Vec<&str>) -> (r: bool)
    ensures
        r == (strings_view(names@) == strs_view(declared@)),
{
    if names.len() != declared.len() {
        assert(strings_view(names@).len() != strs_view(declared@).len());
        return false;
    }
    let mut k: usize = 0;
    while k < names.len()
        invariant
            names@.len() == declared@.len(),
            k <= names@.len(),
            forall|j: int| 0 <= j < k ==> names@[j]@ == declared@[j]@,
        decreases names.len() - k,
    {
        if names[k] != declared[k].to_owned() {
            assert(strings_view(names@)[k as int] != strs_view(declared@)[k as int]);
            return false;
        }
        k = k + 1;
    }
    assert(strings_view(names@) =~= strs_view(declared@));
    true
}

/// One line per route, in registration order: its method and its template.
pub open spec fn route_lines(t: Table) -> Seq<char>
    decreases t.len(),
{
    if t.len() == 0 {
        Seq::empty()
    } else {
        route_lines(t.drop_last()) + "  "@ + method_text(t.last().0) + " "@ + t.last().1 + "\n"@
    }
}

/// The listing of a table's routes.
pub open spec fn description(t: Table) -> Seq<char> {
    "Dispatcher {\n"@ + route_lines(t) + "}\n"@
}

/// One registered route.
pub struct RouteDatas<H> {
    method: Method,
    template: String,
    matcher: Matcher,
    handler: H,
}

impl<H> RouteDatas<H> {
    pub closed spec fn wf(&self) -> bool {
        &&& normalize(self.template@) == self.template@
        &&& template_valid(self.template@)
        &&& self.matcher.wf()
        &&& self.matcher.pattern() == pieces(self.template@)
    }
}

/// Routes requests to the handlers registered for them.
pub struct Dispatcher<H, P> {
    routes: Vec<RouteDatas<H>>,
    /// The exact-match index: the positions of the routes filed under each key.
    index: HashMap<u64, Vec<usize>>,
    producer: P,
}

impl<H, P> View for Dispatcher<H, P> {
    type V = Table;

    closed spec fn view(&self) -> Table {
        self.routes@.map_values(|r: RouteDatas<H>| (r.method, r.template@))
    }
}

impl<H, P> Dispatcher<H, P> {
    /// The handlers, in the order of the routes.
    pub closed spec fn handlers(&self) -> Seq<H> {
        self.routes@.map_values(|r: RouteDatas<H>| r.handler)
    }

    /// The producer of contexts.
    pub closed spec fn producer(&self) -> P {
        self.producer
    }

    /// There is one handler per route.
    pub proof fn lemma_handler_count(&self)
        ensures
            self.handlers().len() == self@.len(),
    {
    }

    /// Every route is well formed, and no two share a template and a method.
    pub closed spec fn wf(&self) -> bool {
        &&& forall|i: int| 0 <= i < self.routes@.len() ==> #[trigger] self.routes@[i].wf()
        &&& routes_unique(self@)
        &&& forall|i: int|
            0 <= i < self.routes@.len() ==> self.index@.contains_key(
                route_key(#[trigger] self@[i].0, self@[i].1),
            ) && files(self.index@[route_key(self@[i].0, self@[i].1)]@, i)
        &&& forall|k: u64, j: int|
            self.index@.contains_key(k) && 0 <= j < self.index@[k]@.len() ==> #[trigger] self.index@[k]@[j]
                < self.routes@.len()
    }

    /// A dispatcher with no routes.
    pub fn with_producer(producer: P) -> (r: Self)
        ensures
            r.wf(),
            r@ == Table::empty(),
            r.handlers() == Seq::<H>::empty(),
            r.producer() == producer,
    {
        let r = Dispatcher { routes: Vec::new(), index: HashMap::new(), producer };
        assert(r@ =~= Table::empty());
        assert(r.handlers() =~= Seq::<H>::empty());
        r
    }

    /// Replaces the producer of contexts.
    pub fn set_producer(&mut self, param_producer: P)
        ensures
            final(self)@ == old(self)@,
            final(self).handlers() == old(self).handlers(),
            final(self).producer() == param_producer,
            final(self).handlers().len() == final(self)@.len(),
            old(self).wf() ==> final(self).wf(),
    {
        self.producer = param_producer;
    }

    /// The index of the route registered for exactly the normalised text of
    /// `path` and for `method`.
    pub fn lookup_exact(&self, path: &str, method: Method) -> (r: Option<usize>)
        requires
            self.wf(),
        ensures
            r matches Some(i) ==> exact_index(self@, path@, method) == Some(i as int),
            r is None ==> exact_index(self@, path@, method) is None,
    {
        let clean = remove_trailling_slash(path);
        let ghost key = normalize(path@);
        let h = key_of(method, clean.as_str());
        let bucket = match self.index.get(&h) {
            Some(b) => b,
            None => {
                assert forall|i: int| 0 <= i < self@.len() implies self@[i] != (method, key) by {
                    assert(self.index@.contains_key(route_key(self@[i].0, self@[i].1)));
                }
                proof {
                    lemma_exact_from(self@, key, method, 0);
                }
                return None;
            },
        };
        let mut j: usize = 0;
        while j < bucket.len()
            invariant
                self.wf(),
                clean@ == key,
                key == normalize(path@),
                h == route_key(method, key),
                self.index@.contains_key(h),
                bucket@ == self.index@[h]@,
                j <= bucket@.len(),
                forall|k: int| 0 <= k < j ==> self@[bucket@[k] as int] != (method, key),
            decreases bucket.len() - j,
        {
            let idx = bucket[j];
            assert(bucket@[j as int] == self.index@[h]@[j as int]);
            let route = &self.routes[idx];
            assert(self@[idx as int] == (route.method, route.template@));
            if route.method == method && route.template == clean {
                proof {
                    lemma_exact_from(self@, key, method, 0);
                    if let Some(k) = exact_from(self@, key, method, 0) {
                        if k < idx {
                            assert(self@[k] != self@[idx as int]);
                        } else if k > idx {
                            assert(self@[idx as int] != self@[k]);
                        }
                    }
                }
                return Some(idx);
            }
            j = j + 1;
        }
        assert forall|i: int| 0 <= i < self@.len() implies self@[i] != (method, key) by {
            if self@[i] == (method, key) {
                assert(self@[i].0 == method && self@[i].1 == key);
                assert(files(self.index@[route_key(self@[i].0, self@[i].1)]@, i));
                assert(route_key(self@[i].0, self@[i].1) == h);
                assert(files(bucket@, i));
                let k = choose|k: int| 0 <= k < bucket@.len() && bucket@[k] as int == i;
                assert(self@[bucket@[k] as int] != (method, key));
                assert(false);
            }
        }
        proof {
            lemma_exact_from(self@, key, method, 0);
        }
        None
    }

    /// The indices of the routes registered for `method`, in registration order.
    pub fn candidates(&self, method: Method) -> (r: Vec<usize>)
        ensures
            r@.map_values(|i: usize| i as int) == Seq::new(self@.len(), |i: int| i).filter(
                |i: int| self@[i].0 == method,
            ),
    {
        let ghost all = Seq::new(self@.len(), |i: int| i);
        let mut r: Vec<usize> = Vec::new();
        let mut i: usize = 0;
        proof {
            reveal(Seq::filter);
        }
        assert(r@.map_values(|i: usize| i as int) =~= all.subrange(0, 0).filter(
            |i: int| self@[i].0 == method,
        ));
        while i < self.routes.len()
            invariant
                all == Seq::new(self@.len(), |i: int| i),
                i <= self.routes@.len(),
                r@.map_values(|i: usize| i as int) == all.subrange(0, i as int).filter(
                    |i: int| self@[i].0 == method,
                ),
            decreases self.routes.len() - i,
        {
            let ghost before = r@;
            proof {
                reveal(Seq::filter);
            }
            assert(all.subrange(0, i + 1).drop_last() =~= all.subrange(0, i as int));
            assert(self@[i as int].0 == self.routes@[i as int].method);
            if self.routes[i].method == method {
                r.push(i);
                assert(r@.map_values(|i: usize| i as int) =~= before.map_values(|i: usize| i as int).push(i as int));
            }
            i = i + 1;
        }
        assert(all.subrange(0, self@.len() as int) =~= all);
        r
    }

    /// The index of the first route, in registration order, registered for
    /// `method` whose template matches `path`, with what its variables capture.
    fn find_complex_route(&self, path: &str, method: Method) -> (r: Option<
        (usize, Vec<(String, String)>),
    >)
        requires
            self.wf(),
        ensures
            r matches Some((i, c)) ==> first_match(self@, path@, method) == Some(i as int)
                && pairs_view(c@) == captures(pieces(self@[i as int].1), path_segments(path@)),
            r is None ==> first_match(self@, path@, method) is None,
    {
        let ghost segs = path_segments(path@);
        let mut i: usize = 0;
        while i < self.routes.len()
            invariant
                self.wf(),
                segs == path_segments(path@),
                i <= self.routes@.len(),
                first_match_from(self@, segs, method, 0) == first_match_from(self@, segs, method, i as int),
            decreases self.routes.len() - i,
        {
            let route = &self.routes[i];
            assert(self.routes@[i as int].wf());
            assert(self@[i as int] == (route.method, route.template@));
            if route.method == method {
                match route.matcher.match_path(path) {
                    Some(c) => {
                        return Some((i, c));
                    },
                    None => {},
                }
            }
            i = i + 1;
        }
        None
    }

    /// Which route serves `path` for `method`, with the parameters its
    /// handler receives; `None` where no route does.
    pub fn resolve(&self, path: &str, method: Method, params: Params) -> (r: Option<(usize, Params)>)
        requires
            self.wf(),
        ensures
            r matches Some((i, p)) ==> resolution(self@, path@, method, params@) == Some((i as int, p@)),
            r is None ==> resolution(self@, path@, method, params@) is None,
    {
        match self.lookup_exact(path, method) {
            Some(i) => Some((i, params)),
            None => match self.find_complex_route(path, method) {
                Some((i, caps)) => {
                    let mut merged = Params::from_pairs(&caps);
                    merged.overlay(&params);
                    Some((i, merged))
                },
                None => None,
            },
        }
    }

    /// Registers `func` for `route` and `method`. A route already registered
    /// for the same normalised template and method keeps its place and takes
    /// the new handler. Fails, changing nothing, where the template is invalid.
    pub fn add(&mut self, func: H, route: &str, method: Method) -> (r: Result<(), ConfigError>)
        requires
            old(self).wf(),
        ensures
            final(self).wf(),
            final(self).producer() == old(self).producer(),
            final(self).handlers().len() == final(self)@.len(),
            r is Ok <==> template_valid(route@),
            r matches Err(e) ==> e is InvalidTemplate,
            r is Ok ==> final(self)@ == table_after_add(old(self)@, route@, method),
            r is Ok ==> final(self).handlers() == handlers_after_add(
                old(self).handlers(),
                old(self)@,
                route@,
                method,
                func,
            ),
            r is Err ==> final(self)@ == old(self)@ && final(self).handlers() == old(self).handlers(),
    {
        let clean = remove_trailling_slash(route);
        proof {
            lemma_normalize_idempotent(route@);
        }
        assert(pieces(clean@) == pieces(route@));
        let matcher = match Matcher::compile(clean.as_str()) {
            Ok(m) => m,
            Err(_) => {
                return Err(ConfigError::InvalidTemplate(route.to_owned()));
            },
        };
        let ghost old_routes = self.routes@;
        let ghost key = normalize(route@);
        proof {
            lemma_exact_from(self@, key, method, 0);
        }
        let entry = RouteDatas { method, template: clean, matcher, handler: func };
        assert(entry.wf());
        match self.lookup_exact(route, method) {
            Some(i) => {
                self.routes.set(i, entry);
                assert(self@ =~= old(self)@);
                assert(self.handlers() =~= old(self).handlers().update(i as int, func));
            },
            None => {
                let n = self.routes.len();
                let h = key_of(method, entry.template.as_str());
                let ghost old_index = self.index@;
                let mut bucket = match self.index.remove(&h) {
                    Some(b) => b,
                    None => Vec::new(),
                };
                let ghost old_bucket = bucket@;
                assert(old_index.contains_key(h) ==> old_bucket == old_index[h]@);
                assert(!old_index.contains_key(h) ==> old_bucket.len() == 0);
                bucket.push(n);
                self.index.insert(h, bucket);
                self.routes.push(entry);
                assert(self@ =~= old(self)@.push((method, key)));
                assert(self.handlers() =~= old(self).handlers().push(func));
                assert forall|i: int| 0 <= i < self.routes@.len() implies self.index@.contains_key(
                    route_key(#[trigger] self@[i].0, self@[i].1),
                ) && files(self.index@[route_key(self@[i].0, self@[i].1)]@, i) by {
                    if i < n {
                        let ki = route_key(self@[i].0, self@[i].1);
                        assert(old(self)@[i] == self@[i]);
                        assert(old_index.contains_key(ki) && files(old_index[ki]@, i));
                        if ki == h {
                            let w = choose|w: int| 0 <= w < old_bucket.len() && old_bucket[w] as int == i;
                            assert(self.index@[h]@[w] as int == i);
                        }
                    } else {
                        assert(self.index@[h]@[old_bucket.len() as int] as int == i);
                    }
                }
                assert forall|k: u64, j: int|
                    self.index@.contains_key(k) && 0 <= j < self.index@[k]@.len() implies #[trigger] self.index@[k]@[j]
                        < self.routes@.len() by {
                    if k == h {
                        if j < old_bucket.len() {
                            assert(old_index[h]@[j] < n);
                        }
                    } else {
                        assert(old_index[k]@[j] < n);
                    }
                }
            },
        }
        assert forall|i: int| 0 <= i < self.routes@.len() implies #[trigger] self.routes@[i].wf() by {
            if i < old_routes.len() {
                assert(old_routes[i].wf());
            }
        }
        Ok(())
    }


    /// Every handler accepts every parameter map and context.
    pub open spec fn handlers_total<C, T>(&self) -> bool
        where
            H: Fn(Params, C) -> Resp<T>,
    {
        forall|i: int, p: Params, c: C|
            0 <= i < self.handlers().len() ==> #[trigger] self.handlers()[i].requires((p, c))
    }

    /// `r` is what handler `i` may return for parameters with model `m` and
    /// a context that the dispatcher's producer handed out.
    pub open spec fn handler_returned<C, T>(&self, i: int, m: Map<Seq<char>, Seq<char>>, r: Resp<T>) -> bool
        where
            H: Fn(Params, C) -> Resp<T>,
            P: Producer<C>,
    {
        exists|p: Params, c: C|
            p@ == m && self.producer().produces(c) && #[trigger] self.handlers()[i].ensures((p, c), r)
    }

    /// Dispatches `route` for `method`: the handler of the route that
    /// `resolution` picks is called once, with the parameters it gives and a
    /// fresh context, and its response is returned unchanged. Where no route
    /// serves the path, a routing error that names the path and the method.
    pub fn run_with_method<C, T>(&self, route: &str, web_params: Params, method: Method) -> (r: Resp<T>)
        where
            H: Fn(Params, C) -> Resp<T>,
            P: Producer<C>,
        requires
            self.wf(),
            self.handlers_total::<C, T>(),
        ensures
            resolution(self@, route@, method, web_params@) is None ==> (r matches Resp::RoutingError(s)
                && s@ == routing_message(route@, method)),
            resolution(self@, route@, method, web_params@) matches Some((i, m)) ==> self.handler_returned(i, m, r),
    {
        match self.resolve(route, method, web_params) {
            Some((i, params)) => {
                proof {
                    lemma_exact_from(self@, normalize(route@), method, 0);
                    lemma_first_match_from(self@, path_segments(route@), method, 0);
                }
                assert(i < self.routes@.len());
                let context = self.producer.get_new();
                let ghost args = (params, context);
                let ghost m = params@;
                assert(self.handlers()[i as int] == self.routes@[i as int].handler);
                let r = (self.routes[i].handler)(params, context);
                assert(self.handlers()[i as int].ensures((args.0, args.1), r));
                assert(self.handler_returned(i as int, m, r));
                r
            },
            None => {
                let mut msg = "route: ".to_owned();
                msg.append(route);
                msg.append(", method: ");
                msg.append(method.name().as_str());
                msg.append(", don't exist");
                Resp::RoutingError(msg)
            },
        }
    }

    /// Dispatches `route` for GET.
    pub fn run<C, T>(&self, route: &str, web_params: Params) -> (r: Resp<T>)
        where
            H: Fn(Params, C) -> Resp<T>,
            P: Producer<C>,
        requires
            self.wf(),
            self.handlers_total::<C, T>(),
        ensures
            resolution(self@, route@, Method::Get, web_params@) is None ==> (r matches Resp::RoutingError(s)
                && s@ == routing_message(route@, Method::Get)),
            resolution(self@, route@, Method::Get, web_params@) matches Some((i, m)) ==> self.handler_returned(i, m, r),
    {
        self.run_with_method(route, web_params, Method::Get)
    }


    /// A dispatcher with the default producer, holding the described routes
    /// that pass their checks, registered in order as if the others were
    /// absent; beside it, the position and error of each descriptor that
    /// fails, in order. A descriptor fails where it names an unknown method,
    /// holds an invalid template, or declares variables other than its
    /// template's.
    pub fn new(routes: &[Descriptor<'_, H>]) -> (r: (Self, Vec<(usize, ConfigError)>))
        where
            H: Copy,
            P: Default,
        ensures
            r.0.wf(),
            r.0@ == table_of(routes@),
            r.0.handlers() == handlers_of(routes@),
            r.0.handlers().len() == r.0@.len(),
            r.1@.map_values(|e: (usize, ConfigError)| e.0 as int) == bad_indices(routes@),
            forall|k: int|
                0 <= k < r.1@.len() ==> error_fits(routes@[#[trigger] r.1@[k].0 as int], r.1@[k].1),
    {
        let mut d = Dispatcher::with_producer(P::default());
        let mut errors: Vec<(usize, ConfigError)> = Vec::new();
        let mut i: usize = 0;
        assert(routes@.subrange(0, 0) =~= Seq::<Descriptor<'_, H>>::empty());
        assert(errors@.map_values(|e: (usize, ConfigError)| e.0 as int) =~= Seq::<int>::empty());
        while i < routes.len()
            invariant
                i <= routes@.len(),
                d.wf(),
                d@ == table_of(routes@.subrange(0, i as int)),
                d.handlers() == handlers_of(routes@.subrange(0, i as int)),
                errors@.map_values(|e: (usize, ConfigError)| e.0 as int) == bad_indices(
                    routes@.subrange(0, i as int),
                ),
                forall|k: int|
                    0 <= k < errors@.len() ==> errors@[k].0 < i && error_fits(
                        routes@[#[trigger] errors@[k].0 as int],
                        errors@[k].1,
                    ),
            decreases routes.len() - i,
        {
            let desc = &routes[i];
            let ghost before = routes@.subrange(0, i as int);
            assert(routes@.subrange(0, i + 1).drop_last() =~= before);
            assert(routes@.subrange(0, i + 1).last() == routes@[i as int]);
            match check_descriptor(desc) {
                Ok(method) => {
                    let handler = desc.0;
                    let _ = d.add(handler, desc.1, method);
                },
                Err(e) => {
                    let ghost old_errors = errors@;
                    errors.push((i, e));
                    assert(errors@.map_values(|e: (usize, ConfigError)| e.0 as int) =~= old_errors.map_values(
                        |e: (usize, ConfigError)| e.0 as int,
                    ).push(i as int));
                },
            }
            i = i + 1;
        }
        assert(routes@.subrange(0, routes@.len() as int) =~= routes@);
        proof {
            d.lemma_handler_count();
        }
        (d, errors)
    }

    /// A listing of the routes, one line each: method and template.
    pub fn describe(&self) -> (r: String)
        ensures
            r@ == description(self@),
    {
        let mut lines = "".to_owned();
        proof {
            reveal_strlit("");
        }
        let mut i: usize = 0;
        assert(self@.subrange(0, 0) =~= Table::empty());
        while i < self.routes.len()
            invariant
                i <= self.routes@.len(),
                lines@ == route_lines(self@.subrange(0, i as int)),
            decreases self.routes.len() - i,
        {
            let route = &self.routes[i];
            assert(self@.subrange(0, i + 1).drop_last() =~= self@.subrange(0, i as int));
            assert(self@[i as int] == (route.method, route.template@));
            lines.append("  ");
            lines.append(route.method.name().as_str());
            lines.append(" ");
            lines.append(route.template.as_str());
            lines.append("\n");
            i = i + 1;
        }
        assert(self@.subrange(0, self@.len() as int) =~= self@);
        let mut out = "Dispatcher {\n".to_owned();
        out.append(lines.as_str());
        out.append("}\n");
        out
    }

}

} // verus!
