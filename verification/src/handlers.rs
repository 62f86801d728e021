//! The route table and the connection dispatcher's decision logic: building
//! match patterns, testing a request buffer against them, validating that a
//! fallback route exists, and picking the route that answers a request.

use vstd::prelude::*;
use vstd::string::StringExecFns;
use vstd::utf8::encode_utf8;
use crate::types::RequestBuffer;

verus! {

/// The match pattern for a path: the literal `"GET "`, the path, then
/// `" HTTP/1.1\r\n"`.
pub open spec fn pattern_chars(path: Seq<char>) -> Seq<char> {
    "GET "@ + path + " HTTP/1.1\r\n"@
}

/// A request matches a path when the request's first bytes are exactly the
/// UTF-8 bytes of the path's pattern.
pub open spec fn route_matches(buffer: Seq<u8>, path: Seq<char>) -> bool {
    encode_utf8(pattern_chars(path)).is_prefix_of(buffer)
}

/// Whether a route key is the reserved fallback key `"."`.
pub open spec fn is_fallback_key(path: Seq<char>) -> bool {
    path == "."@
}

/// Build the literal pattern `"GET {path} HTTP/1.1\r\n"` for a path.
pub fn make_pattern(path: &str) -> (r: String)
    ensures
        r@ == pattern_chars(path@),
{
    let mut r = String::from_str("GET ");
    r.append(path);
    r.append(" HTTP/1.1\r\n");
    proof {
        assert(r@ =~= pattern_chars(path@));
    }
    r
}

/// Whether `prefix` is a prefix of the request bytes.
fn starts_with_bytes(buffer: &RequestBuffer, prefix: &[u8]) -> (r: bool)
    ensures
        r == prefix@.is_prefix_of(buffer@),
{
    broadcast use vstd::array::group_array_axioms;

    let m = prefix.len();
    if m > 1024 {
        return false;
    }
    let mut i: usize = 0;
    while i < m
        invariant
            m == prefix@.len(),
            m <= buffer@.len(),
            i <= m,
            forall|j: int| 0 <= j < i ==> buffer@[j] == prefix@[j],
        decreases m - i,
    {
        if buffer[i] != prefix[i] {
            proof {
                assert(buffer@.subrange(0, m as int)[i as int] == buffer@[i as int]);
            }
            return false;
        }
        i += 1;
    }
    proof {
        assert(prefix@ =~= buffer@.subrange(0, m as int));
    }
    true
}

/// Whether `buffer` starts with the pattern for `path`.
pub fn buffer_matches(buffer: &RequestBuffer, path: &str) -> (r: bool)
    ensures
        r == route_matches(buffer@, path@),
{
    let pattern = make_pattern(path);
    let pattern_bytes = pattern.as_str().as_bytes();
    starts_with_bytes(buffer, pattern_bytes)
}

/// The index of the winning route: the last route, in registration order,
/// whose key is not the fallback key and whose pattern is a prefix of the
/// request. The latest registration has the highest priority, so matching
/// is deterministic where the table order is.
pub open spec fn match_wins<H>(routes: Seq<(String, H)>, buffer: Seq<u8>) -> Option<int>
    decreases routes.len(),
{
    if routes.len() == 0 {
        None
    } else if !is_fallback_key(routes.last().0@) && route_matches(buffer, routes.last().0@) {
        Some(routes.len() - 1)
    } else {
        match_wins(routes.drop_last(), buffer)
    }
}

/// Whether some route is registered under the fallback key.
pub open spec fn has_fallback<H>(routes: Seq<(String, H)>) -> bool {
    exists|i: int| 0 <= i < routes.len() && is_fallback_key(routes[i].0@)
}

/// Route keys are unique: the route table's invariant.
pub open spec fn paths_unique<H>(routes: Seq<(String, H)>) -> bool {
    forall|i: int, j: int| 0 <= i < j < routes.len() ==> routes[i].0@ != routes[j].0@
}

/// Whether a route key is the reserved fallback key.
fn is_dot(path: &String) -> (r: bool)
    ensures
        r == is_fallback_key(path@),
{
    let dot = String::from_str(".");
    *path == dot
}

/// A startup configuration fault, detected before any socket is bound.
#[derive(Clone, Copy, Debug, PartialEq, Eq, Structural)]
pub enum ConfigError {
    /// No route is registered under the fallback key `"."`.
    MissingFallback,
}

/// The connection dispatcher: the host and port to bind, and the route
/// table in registration order. `H` is the handler value the embedding
/// program associates with each route, typically a function from a
/// [`RequestBuffer`] to the response body.
pub struct AppHandler<H> {
    /// The host to bind the listener on.
    pub host: String,
    /// The port to bind the listener on.
    pub port: i32,
    /// The registered routes, oldest first, with unique keys.
    pub routes: Vec<(String, H)>,
}

impl<H> AppHandler<H> {
    /// The route table invariant: keys are unique. Established by [`Self::new`]
    /// and preserved by [`Self::route`].
    pub open spec fn wf(&self) -> bool {
        paths_unique(self.routes@)
    }

    /// A dispatcher for `host:port` with an empty route table.
    pub fn new(host: String, port: i32) -> (r: AppHandler<H>)
        ensures
            r.host@ == host@,
            r.port == port,
            r.routes@ == Seq::<(String, H)>::empty(),
            r.wf(),
    {
        AppHandler { host, port, routes: Vec::new() }
    }

    /// Register `dest` under `path`. Any string is accepted as a path,
    /// including the two reserved keys. A path already present is
    /// re-registered: its old entry leaves the table and the new one goes to
    /// the end, so the most recent registration has the highest priority.
    pub fn route(&mut self, path: String, dest: H)
        requires
            old(self).wf(),
        ensures
            final(self).wf(),
            final(self).host == old(self).host,
            final(self).port == old(self).port,
            if exists|j: int|
                0 <= j < old(self).routes@.len() && old(self).routes@[j].0@ == path@ {
                exists|j: int|
                    0 <= j < old(self).routes@.len() && old(self).routes@[j].0@ == path@
                        && final(self).routes@ == old(self).routes@.remove(j).push((path, dest))
            } else {
                final(self).routes@ == old(self).routes@.push((path, dest))
            },
    {
        let n = self.routes.len();
        let mut i: usize = 0;
        while i < n
            invariant
                *self == *old(self),
                paths_unique(self.routes@),
                n == self.routes@.len(),
                i <= n,
                forall|j: int| 0 <= j < i ==> self.routes@[j].0@ != path@,
            decreases n - i,
        {
            if self.routes[i].0 == path {
                let _replaced = self.routes.remove(i);
                self.routes.push((path, dest));
                proof {
                    let rs = old(self).routes@;
                    let rr = rs.remove(i as int);
                    rs.remove_ensures(i as int);
                    assert forall|a: int, b: int| 0 <= a < b < rr.len() implies rr[a].0@
                        != rr[b].0@ by {
                        if i <= a {
                            assert(rr[a] == rs[a + 1]);
                        }
                        if i <= b {
                            assert(rr[b] == rs[b + 1]);
                        }
                    }
                    assert forall|a: int| 0 <= a < rr.len() implies rr[a].0@ != path@ by {
                        if a < i {
                            assert(rs[a].0@ != rs[i as int].0@);
                        } else {
                            assert(rr[a] == rs[a + 1]);
                            assert(rs[i as int].0@ != rs[a + 1].0@);
                        }
                    }
                    assert(paths_unique(self.routes@));
                }
                return;
            }
            i += 1;
        }
        self.routes.push((path, dest));
        proof {
            assert(paths_unique(self.routes@));
        }
    }

    /// Scan the table for the fallback route: the check `serve` makes once,
    /// before binding the listener. `Ok` exactly when a fallback route is
    /// registered; otherwise the one configuration error this library knows.
    pub fn validate(&self) -> (r: Result<(), ConfigError>)
        ensures
            r is Ok <==> has_fallback(self.routes@),
            r is Err ==> r == Err::<(), ConfigError>(ConfigError::MissingFallback),
    {
        match self.find_fallback() {
            Some(_) => Ok(()),
            None => Err(ConfigError::MissingFallback),
        }
    }

    /// Decide which route answers `buffer`: the winning non-fallback route
    /// where some pattern matches, else the fallback route where one is
    /// registered, else nothing. The caller invokes the handler of the
    /// returned route.
    pub fn dispatch(&self, buffer: &RequestBuffer) -> (r: Option<usize>)
        ensures
            match match_wins(self.routes@, buffer@) {
                Some(w) => r == Some(w as usize),
                None => match r {
                    Some(i) => i < self.routes@.len() && is_fallback_key(
                        self.routes@[i as int].0@,
                    ) && forall|j: int| 0 <= j < i ==> !is_fallback_key(self.routes@[j].0@),
                    None => !has_fallback(self.routes@),
                },
            },
    {
        let n = self.routes.len();
        let mut winner: Option<usize> = None;
        let mut i: usize = 0;
        while i < n
            invariant
                n == self.routes@.len(),
                i <= n,
                match match_wins(self.routes@.take(i as int), buffer@) {
                    Some(w) => winner == Some(w as usize),
                    None => winner is None,
                },
            decreases n - i,
        {
            let path = &self.routes[i].0;
            if !is_dot(path) && buffer_matches(buffer, path.as_str()) {
                winner = Some(i);
            }
            proof {
                let rs = self.routes@;
                let taken = rs.take(i as int + 1);
                assert(taken.drop_last() =~= rs.take(i as int));
                assert(taken.last() == rs[i as int]);
            }
            i += 1;
        }
        proof {
            assert(self.routes@.take(n as int) =~= self.routes@);
        }
        match winner {
            Some(w) => Some(w),
            None => self.find_fallback(),
        }
    }

    /// The index of the first route registered under the fallback key, if
    /// one is registered.
    pub fn find_fallback(&self) -> (r: Option<usize>)
        ensures
            match r {
                Some(i) => i < self.routes@.len() && is_fallback_key(self.routes@[i as int].0@)
                    && forall|j: int| 0 <= j < i ==> !is_fallback_key(self.routes@[j].0@),
                None => !has_fallback(self.routes@),
            },
    {
        let n = self.routes.len();
        let mut i: usize = 0;
        while i < n
            invariant
                n == self.routes@.len(),
                i <= n,
                forall|j: int| 0 <= j < i ==> !is_fallback_key(self.routes@[j].0@),
            decreases n - i,
        {
            if is_dot(&self.routes[i].0) {
                return Some(i);
            }
            i += 1;
        }
        None
    }
}

/// The winner of the match scan is sound and maximal: where there is a
/// winner it is a matching non-fallback route and no later route matches;
/// where there is none, no non-fallback route matches at all.
pub proof fn lemma_match_wins_correct<H>(routes: Seq<(String, H)>, buffer: Seq<u8>)
    ensures
        match match_wins(routes, buffer) {
            Some(w) => 0 <= w < routes.len() && !is_fallback_key(routes[w].0@) && route_matches(
                buffer,
                routes[w].0@,
            ) && forall|j: int|
                w < j < routes.len() ==> !(!is_fallback_key(routes[j].0@) && route_matches(
                    buffer,
                    routes[j].0@,
                )),
            None => forall|j: int|
                0 <= j < routes.len() ==> !(!is_fallback_key(routes[j].0@) && route_matches(
                    buffer,
                    routes[j].0@,
                )),
        },
    decreases routes.len(),
{
    if routes.len() > 0 {
        let prefix = routes.drop_last();
        if !(!is_fallback_key(routes.last().0@) && route_matches(buffer, routes.last().0@)) {
            lemma_match_wins_correct(prefix, buffer);
            assert forall|j: int| 0 <= j < prefix.len() implies prefix[j] == routes[j] by {}
        }
    }
}

/// A request matched by exactly one non-fallback route is answered by that
/// route, never by the fallback.
pub proof fn lemma_unique_match_wins<H>(routes: Seq<(String, H)>, buffer: Seq<u8>, i: int)
    requires
        0 <= i < routes.len(),
        !is_fallback_key(routes[i].0@),
        route_matches(buffer, routes[i].0@),
        forall|j: int|
            0 <= j < routes.len() && j != i ==> !(!is_fallback_key(routes[j].0@)
                && route_matches(buffer, routes[j].0@)),
    ensures
        match_wins(routes, buffer) == Some(i),
{
    lemma_match_wins_correct(routes, buffer);
}

/// A request matched by no non-fallback route has no winner, so the
/// dispatcher falls back to the route under the reserved key.
pub proof fn lemma_no_match_uses_fallback<H>(routes: Seq<(String, H)>, buffer: Seq<u8>)
    requires
        forall|j: int|
            0 <= j < routes.len() ==> !(!is_fallback_key(routes[j].0@) && route_matches(
                buffer,
                routes[j].0@,
            )),
    ensures
        match_wins(routes, buffer) is None,
{
    lemma_match_wins_correct(routes, buffer);
}

/// Where two registered routes both match the same request, the one
/// registered later wins: the winner's index is at least the higher of the
/// two.
pub proof fn lemma_last_match_wins<H>(routes: Seq<(String, H)>, buffer: Seq<u8>, i: int, j: int)
    requires
        0 <= i < j < routes.len(),
        !is_fallback_key(routes[i].0@),
        route_matches(buffer, routes[i].0@),
        !is_fallback_key(routes[j].0@),
        route_matches(buffer, routes[j].0@),
    ensures
        match_wins(routes, buffer) matches Some(w) && w >= j,
{
    lemma_match_wins_correct(routes, buffer);
}

/// Validation reflects registration: after registering a route, as
/// [`AppHandler::route`] promises to, a fallback route exists exactly when
/// one existed before or the new key is the reserved one. With
/// [`AppHandler::validate`]'s contract it follows that serving fails fast
/// if and only if no registration ever used the reserved key.
pub proof fn lemma_fallback_reflects_registration<H>(
    before: Seq<(String, H)>,
    after: Seq<(String, H)>,
    path: String,
    dest: H,
)
    requires
        paths_unique(before),
        if exists|j: int| 0 <= j < before.len() && before[j].0@ == path@ {
            exists|j: int|
                0 <= j < before.len() && before[j].0@ == path@ && after == before.remove(j).push(
                    (path, dest),
                )
        } else {
            after == before.push((path, dest))
        },
    ensures
        has_fallback(after) <==> (has_fallback(before) || is_fallback_key(path@)),
{
    if exists|j: int| 0 <= j < before.len() && before[j].0@ == path@ {
        let j = choose|j: int|
            0 <= j < before.len() && before[j].0@ == path@ && after == before.remove(j).push(
                (path, dest),
            );
        let rr = before.remove(j);
        before.remove_ensures(j);
        assert(after.last() == (path, dest));
        if has_fallback(before) {
            let k = choose|k: int| 0 <= k < before.len() && is_fallback_key(before[k].0@);
            if k == j {
                assert(is_fallback_key(after.last().0@));
            } else if k < j {
                assert(rr[k] == before[k]);
                assert(after[k] == rr[k]);
                assert(is_fallback_key(after[k].0@));
            } else {
                assert(rr[k - 1] == before[k]);
                assert(after[k - 1] == rr[k - 1]);
                assert(is_fallback_key(after[k - 1].0@));
            }
            assert(has_fallback(after));
        }
        if is_fallback_key(path@) {
            assert(is_fallback_key(after.last().0@));
            assert(has_fallback(after));
        }
        if has_fallback(after) {
            let k = choose|k: int| 0 <= k < after.len() && is_fallback_key(after[k].0@);
            if k == after.len() - 1 {
                assert(is_fallback_key(path@));
            } else if k < j {
                assert(after[k] == rr[k]);
                assert(rr[k] == before[k]);
                assert(has_fallback(before));
            } else {
                assert(after[k] == rr[k]);
                assert(rr[k] == before[k + 1]);
                assert(has_fallback(before));
            }
        }
    } else {
        assert(after.last() == (path, dest));
        if has_fallback(before) {
            let k = choose|k: int| 0 <= k < before.len() && is_fallback_key(before[k].0@);
            assert(after[k] == before[k]);
            assert(has_fallback(after));
        }
        if is_fallback_key(path@) {
            assert(is_fallback_key(after.last().0@));
            assert(has_fallback(after));
        }
        if has_fallback(after) {
            let k = choose|k: int| 0 <= k < after.len() && is_fallback_key(after[k].0@);
            if k < before.len() {
                assert(after[k] == before[k]);
                assert(has_fallback(before));
            } else {
                assert(is_fallback_key(path@));
            }
        }
    }
}

} // verus!
