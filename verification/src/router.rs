//! A history stack for path-based navigation.
//!
//! Routing is an ordinary consumer of context injection: a provider holds
//! a [`RouterHistory`] of visited routes, and [`Navigate`] mutates it.
//! Paths are kept as segment lists; [`split_path`] cuts a path string at
//! every `/` into segments that keep their leading slash.

use vstd::prelude::*;

use crate::value::{Value, ValueModel};

verus! {

/// The context of one visited route: its path segments, the parameters
/// bound while matching, and an optional navigation-state value.
#[derive(Debug)]
pub struct RouteContext {
    pub path: Vec<String>,
    pub params: Vec<(String, String)>,
    pub state: Option<Value>,
}

/// The mathematical model of a [`RouteContext`].
pub struct RouteContextModel {
    pub path: Seq<Seq<char>>,
    pub params: Seq<(Seq<char>, Seq<char>)>,
    pub state: Option<ValueModel>,
}

impl View for RouteContext {
    type V = RouteContextModel;

    open spec fn view(&self) -> RouteContextModel {
        RouteContextModel {
            path: self.path@.map_values(|s: String| s@),
            params: self.params@.map_values(|p: (String, String)| (p.0@, p.1@)),
            state: match self.state {
                Some(v) => Some(v@),
                None => None,
            },
        }
    }
}

impl RouteContext {
    /// A route context at a path, with no parameters and no state.
    pub fn new(path: Vec<String>) -> (r: RouteContext)
        ensures
            r@.path == path@.map_values(|s: String| s@),
            r@.params == Seq::<(Seq<char>, Seq<char>)>::empty(),
            r@.state is None,
    {
        let r = RouteContext { path, params: Vec::new(), state: None };
        proof {
            assert(r@.params =~= Seq::<(Seq<char>, Seq<char>)>::empty());
        }
        r
    }

    /// A deep copy: the copy models the same route context.
    pub fn duplicate(&self) -> (r: RouteContext)
        ensures
            r@ == self@,
    {
        let path = clone_strings(&self.path);
        let mut params: Vec<(String, String)> = Vec::new();
        let n = self.params.len();
        let mut i: usize = 0;
        #[verifier::loop_isolation(false)]
        while i < n
            invariant
                0 <= i <= n,
                params@.len() == i,
                forall|k: int| 0 <= k < i ==> #[trigger] params@[k] == self.params@[k],
            decreases n - i,
        {
            let p = (self.params[i].0.clone(), self.params[i].1.clone());
            params.push(p);
            i = i + 1;
        }
        let state = match &self.state {
            Some(v) => Some(v.duplicate()),
            None => None,
        };
        let r = RouteContext { path, params, state };
        proof {
            assert(r@.path =~= self@.path);
            assert(r@.params =~= self@.params);
        }
        r
    }
}

/// Copies a string list; the copy holds the same strings.
pub fn clone_strings(v: &Vec<String>) -> (r: Vec<String>)
    ensures
        r@.len() == v@.len(),
        forall|k: int| 0 <= k < v@.len() ==> #[trigger] r@[k] == v@[k],
{
    let n = v.len();
    let mut r: Vec<String> = Vec::new();
    let mut i: usize = 0;
    #[verifier::loop_isolation(false)]
    while i < n
        invariant
            0 <= i <= n,
            r@.len() == i,
            forall|k: int| 0 <= k < i ==> #[trigger] r@[k] == v@[k],
        decreases n - i,
    {
        r.push(v[i].clone());
        i = i + 1;
    }
    r
}

/// The visited routes, a cursor into them, and the bound on how much
/// history is kept.
#[derive(Debug)]
pub struct RouterHistory {
    pub current: usize,
    pub history: Vec<RouteContext>,
    pub max_length: usize,
}

impl RouterHistory {
    /// The cursor points at a stored route.
    pub open spec fn wf(&self) -> bool {
        self.history@.len() > 0 && (self.current as int) < self.history@.len()
    }

    /// A history holding one initial route, keeping at most `max_length`
    /// entries.
    pub fn new(initial: RouteContext, max_length: usize) -> (r: RouterHistory)
        requires
            max_length >= 1,
        ensures
            r.wf(),
            r.current == 0,
            r.history@.len() == 1,
            r.history@[0] == initial,
            r.max_length == max_length,
    {
        let mut history: Vec<RouteContext> = Vec::new();
        history.push(initial);
        RouterHistory { current: 0, history, max_length }
    }

    /// Visits a new route: the oldest entry falls out when the history
    /// is full, the new route goes on top, and the cursor moves to it,
    /// discarding nothing else.
    pub fn push(&mut self, context: RouteContext)
        requires
            old(self).history@.len() < usize::MAX,
        ensures
            final(self).wf(),
            final(self).max_length == old(self).max_length,
            final(self).history@ == (if old(self).history@.len() >= old(self).max_length
                && old(self).history@.len() > 0 {
                old(self).history@.drop_first().push(context)
            } else {
                old(self).history@.push(context)
            }),
            final(self).current == final(self).history@.len() - 1,
    {
        if self.history.len() >= self.max_length && self.history.len() > 0 {
            self.history.remove(0);
            proof {
                assert(self.history@ =~= old(self).history@.drop_first());
            }
        }
        self.history.push(context);
        self.current = self.history.len() - 1;
    }

    /// Replaces the route under the cursor.
    pub fn replace(&mut self, route: RouteContext)
        requires
            old(self).wf(),
        ensures
            final(self).wf(),
            final(self).max_length == old(self).max_length,
            final(self).current == old(self).current,
            final(self).history@ == old(self).history@.update(old(self).current as int, route),
    {
        let i = self.current;
        let slot = &mut self.history[i];
        *slot = route;
    }

    /// Steps the cursor back and returns a copy of the route it lands
    /// on, or nothing when already at the oldest entry.
    pub fn back(&mut self) -> (r: Option<RouteContext>)
        requires
            old(self).wf(),
        ensures
            final(self).wf(),
            final(self).history@ == old(self).history@,
            final(self).max_length == old(self).max_length,
            old(self).current > 0 ==> final(self).current == old(self).current - 1 && (
            r matches Some(c) && c@ == old(self).history@[old(self).current - 1]@),
            old(self).current == 0 ==> final(self).current == old(self).current && r is None,
    {
        if self.current > 0 {
            self.current = self.current - 1;
            Some(self.history[self.current].duplicate())
        } else {
            None
        }
    }

    /// Steps the cursor forward and returns a copy of the route it lands
    /// on, or nothing when already at the newest entry.
    pub fn forward(&mut self) -> (r: Option<RouteContext>)
        requires
            old(self).wf(),
        ensures
            final(self).wf(),
            final(self).history@ == old(self).history@,
            final(self).max_length == old(self).max_length,
            old(self).current + 1 < old(self).history@.len() ==> final(self).current == old(
                self,
            ).current + 1 && (r matches Some(c) && c@ == old(self).history@[old(self).current
                + 1]@),
            old(self).current + 1 >= old(self).history@.len() ==> final(self).current == old(
                self,
            ).current && r is None,
    {
        if self.current < self.history.len() - 1 {
            self.current = self.current + 1;
            Some(self.history[self.current].duplicate())
        } else {
            None
        }
    }

    /// Moves the cursor by `n` steps (negative means back) and returns a
    /// copy of the route it lands on; an out-of-range move changes
    /// nothing.
    pub fn go(&mut self, n: i32) -> (r: Option<RouteContext>)
        requires
            old(self).wf(),
        ensures
            final(self).wf(),
            final(self).history@ == old(self).history@,
            final(self).max_length == old(self).max_length,
            ({
                let dest = old(self).current + n;
                if 0 <= dest < old(self).history@.len() {
                    final(self).current == dest && (r matches Some(c) && c@ == old(
                        self,
                    ).history@[dest]@)
                } else {
                    final(self).current == old(self).current && r is None
                }
            }),
    {
        let new_index: i128 = self.current as i128 + n as i128;
        if new_index >= 0 && new_index < self.history.len() as i128 {
            self.current = new_index as usize;
            Some(self.history[self.current].duplicate())
        } else {
            None
        }
    }

    /// A copy of the route under the cursor.
    pub fn current_context(&self) -> (r: RouteContext)
        requires
            self.wf(),
        ensures
            r@ == self.history@[self.current as int]@,
    {
        self.history[self.current].duplicate()
    }
}

/// A handle for raising navigation requests against a history.
#[derive(Debug)]
pub struct Navigate {
    pub history: RouterHistory,
}

/// The entry a navigation builds: the current route with its path
/// replaced and, unless the call supplies one, its parameters and state
/// carried over.
pub open spec fn spec_navigated(
    cur: RouteContextModel,
    path: Seq<char>,
    state: Option<ValueModel>,
) -> RouteContextModel {
    RouteContextModel {
        path: spec_split_path(path),
        params: cur.params,
        state: match state {
            Some(v) => Some(v),
            None => cur.state,
        },
    }
}

impl Navigate {
    /// A handle over a history.
    pub fn new(history: RouterHistory) -> (r: Navigate)
        ensures
            r.history == history,
    {
        Navigate { history }
    }

    /// Visits `path`: the current route's parameters and state carry
    /// over into the new entry; when the history is full its oldest
    /// entry falls out, and the cursor lands on the new entry.
    pub fn push(&mut self, path: &str)
        requires
            old(self).history.wf(),
            old(self).history.history@.len() < usize::MAX,
        ensures
            final(self).history.wf(),
            final(self).history.max_length == old(self).history.max_length,
            final(self).history.current == final(self).history.history@.len() - 1,
            spec_pushed_history(old(self).history, final(self).history),
            final(self).history.history@.last()@ == spec_navigated(
                old(self).history.history@[old(self).history.current as int]@,
                path@,
                None,
            ),
    {
        let ghost cur = self.history.history@[self.history.current as int]@;
        let mut ctx = self.history.current_context();
        ctx.path = split_path(path);
        proof {
            assert(ctx@.path =~= spec_split_path(path@));
            assert(ctx@ == spec_navigated(cur, path@, None));
        }
        self.history.push(ctx);
    }

    /// Visits `path` carrying a navigation-state value; the current
    /// route's parameters carry over.
    pub fn push_with_state(&mut self, path: &str, state: Value)
        requires
            old(self).history.wf(),
            old(self).history.history@.len() < usize::MAX,
        ensures
            final(self).history.wf(),
            final(self).history.max_length == old(self).history.max_length,
            final(self).history.current == final(self).history.history@.len() - 1,
            spec_pushed_history(old(self).history, final(self).history),
            final(self).history.history@.last()@ == spec_navigated(
                old(self).history.history@[old(self).history.current as int]@,
                path@,
                Some(state@),
            ),
    {
        let ghost cur = self.history.history@[self.history.current as int]@;
        let mut ctx = self.history.current_context();
        ctx.path = split_path(path);
        ctx.state = Some(state);
        proof {
            assert(ctx@.path =~= spec_split_path(path@));
            assert(ctx@ == spec_navigated(cur, path@, Some(state@)));
        }
        self.history.push(ctx);
    }

    /// Replaces the current route by `path` in place: no entry is added
    /// or removed, every other entry and the cursor stay, and the
    /// current route's parameters and state carry over.
    pub fn replace(&mut self, path: &str)
        requires
            old(self).history.wf(),
        ensures
            final(self).history.wf(),
            final(self).history.max_length == old(self).history.max_length,
            final(self).history.current == old(self).history.current,
            final(self).history.history@.len() == old(self).history.history@.len(),
            forall|k: int|
                0 <= k < old(self).history.history@.len() && k != old(self).history.current
                    ==> final(self).history.history@[k] == old(self).history.history@[k],
            final(self).history.history@[old(self).history.current as int]@ == spec_navigated(
                old(self).history.history@[old(self).history.current as int]@,
                path@,
                None,
            ),
    {
        let ghost cur = self.history.history@[self.history.current as int]@;
        let mut ctx = self.history.current_context();
        ctx.path = split_path(path);
        proof {
            assert(ctx@.path =~= spec_split_path(path@));
            assert(ctx@ == spec_navigated(cur, path@, None));
        }
        self.history.replace(ctx);
    }

    /// Replaces the current route by `path` with a navigation-state
    /// value, in place: no entry is added or removed, every other entry
    /// and the cursor stay, and the parameters carry over.
    pub fn replace_with_state(&mut self, path: &str, state: Value)
        requires
            old(self).history.wf(),
        ensures
            final(self).history.wf(),
            final(self).history.max_length == old(self).history.max_length,
            final(self).history.current == old(self).history.current,
            final(self).history.history@.len() == old(self).history.history@.len(),
            forall|k: int|
                0 <= k < old(self).history.history@.len() && k != old(self).history.current
                    ==> final(self).history.history@[k] == old(self).history.history@[k],
            final(self).history.history@[old(self).history.current as int]@ == spec_navigated(
                old(self).history.history@[old(self).history.current as int]@,
                path@,
                Some(state@),
            ),
    {
        let ghost cur = self.history.history@[self.history.current as int]@;
        let mut ctx = self.history.current_context();
        ctx.path = split_path(path);
        ctx.state = Some(state);
        proof {
            assert(ctx@.path =~= spec_split_path(path@));
            assert(ctx@ == spec_navigated(cur, path@, Some(state@)));
        }
        self.history.replace(ctx);
    }

    /// Moves the cursor by `n` steps (negative means back); an
    /// out-of-range move changes nothing. The entries themselves never
    /// change.
    pub fn go(&mut self, n: i32)
        requires
            old(self).history.wf(),
        ensures
            final(self).history.wf(),
            final(self).history.history@ == old(self).history.history@,
            final(self).history.max_length == old(self).history.max_length,
            final(self).history.current as int == ({
                let dest = old(self).history.current + n;
                if 0 <= dest < old(self).history.history@.len() {
                    dest
                } else {
                    old(self).history.current as int
                }
            }),
    {
        let _ = self.history.go(n);
    }

    /// Steps the cursor back one entry, or stays at the oldest.
    pub fn back(&mut self)
        requires
            old(self).history.wf(),
        ensures
            final(self).history.wf(),
            final(self).history.history@ == old(self).history.history@,
            final(self).history.max_length == old(self).history.max_length,
            final(self).history.current as int == (if old(self).history.current > 0 {
                old(self).history.current - 1
            } else {
                0
            }),
    {
        let _ = self.history.back();
    }

    /// Steps the cursor forward one entry, or stays at the newest.
    pub fn forward(&mut self)
        requires
            old(self).history.wf(),
        ensures
            final(self).history.wf(),
            final(self).history.history@ == old(self).history.history@,
            final(self).history.max_length == old(self).history.max_length,
            final(self).history.current as int == (if old(self).history.current + 1 < old(
                self,
            ).history.history@.len() {
                old(self).history.current + 1
            } else {
                old(self).history.current as int
            }),
    {
        let _ = self.history.forward();
    }
}

/// How a push changes the stored entries: the new entry goes on the
/// back; when the history was full the oldest entry fell out and every
/// other entry moved up one place, otherwise every entry stayed put.
pub open spec fn spec_pushed_history(before: RouterHistory, after: RouterHistory) -> bool {
    if before.history@.len() >= before.max_length && before.history@.len() > 0 {
        &&& after.history@.len() == before.history@.len()
        &&& forall|k: int|
            0 <= k < before.history@.len() - 1 ==> after.history@[k] == before.history@[k + 1]
    } else {
        &&& after.history@.len() == before.history@.len() + 1
        &&& forall|k: int|
            0 <= k < before.history@.len() ==> after.history@[k] == before.history@[k]
    }
}

/// The position of the next `/` at or after `i`, or the string's end.
pub open spec fn next_slash(s: Seq<char>, i: int) -> int
    decreases s.len() - i when 0 <= i <= s.len()
{
    if i >= s.len() {
        s.len() as int
    } else if s[i] == '/' {
        i
    } else {
        next_slash(s, i + 1)
    }
}

/// What `next_slash` returns: the first slash position in `[i, len)`, or
/// `len` when there is none.
pub proof fn lemma_next_slash(s: Seq<char>, i: int)
    requires
        0 <= i <= s.len(),
    ensures
        i <= next_slash(s, i) <= s.len(),
        next_slash(s, i) < s.len() ==> s[next_slash(s, i)] == '/',
        forall|j: int| i <= j < next_slash(s, i) ==> s[j] != '/',
    decreases s.len() - i,
{
    if i < s.len() && s[i] != '/' {
        lemma_next_slash(s, i + 1);
    }
}

/// The path segments from position `i` on: one segment per `/`, each
/// running from its slash up to the next; characters before the first
/// slash belong to no segment.
pub open spec fn spec_split_from(s: Seq<char>, i: int) -> Seq<Seq<char>>
    decreases s.len() - i when 0 <= i <= s.len()
{
    if i >= s.len() {
        Seq::empty()
    } else if s[i] == '/' {
        let j0 = next_slash(s, i + 1);
        let j = if j0 < i + 1 {
            i + 1
        } else if j0 > s.len() {
            s.len() as int
        } else {
            j0
        };
        seq![s.subrange(i, j)] + spec_split_from(s, j)
    } else {
        spec_split_from(s, i + 1)
    }
}

/// The path segments of a whole path string.
pub open spec fn spec_split_path(s: Seq<char>) -> Seq<Seq<char>> {
    spec_split_from(s, 0)
}

/// Cuts a path at every `/`: each segment keeps its leading slash and
/// runs to the next slash; characters before the first slash are
/// dropped.
pub fn split_path(s: &str) -> (r: Vec<String>)
    ensures
        r@.len() == spec_split_path(s@).len(),
        forall|k: int| 0 <= k < r@.len() ==> (#[trigger] r@[k])@ == spec_split_path(s@)[k],
{
    let n = s.unicode_len();
    let mut r: Vec<String> = Vec::new();
    let mut i: usize = 0;
    // Skip anything before the first slash.
    #[verifier::loop_isolation(false)]
    while i < n && s.get_char(i) != '/'
        invariant
            0 <= i <= n,
            n == s@.len(),
            spec_split_from(s@, i as int) == spec_split_path(s@),
        decreases n - i,
    {
        i = i + 1;
    }
    #[verifier::loop_isolation(false)]
    while i < n
        invariant
            0 <= i <= n,
            n == s@.len(),
            i < n ==> s@[i as int] == '/',
            r@.len() + spec_split_from(s@, i as int).len() == spec_split_path(s@).len(),
            forall|k: int|
                0 <= k < r@.len() ==> (#[trigger] r@[k])@ == spec_split_path(s@)[k],
            forall|k: int|
                0 <= k < spec_split_from(s@, i as int).len() ==> spec_split_from(s@, i as int)[k]
                    == spec_split_path(s@)[r@.len() + k],
        decreases n - i,
    {
        proof {
            lemma_next_slash(s@, i as int + 1);
        }
        let mut j = i + 1;
        #[verifier::loop_isolation(false)]
        while j < n && s.get_char(j) != '/'
            invariant
                i + 1 <= j <= n,
                next_slash(s@, j as int) == next_slash(s@, i as int + 1),
            decreases n - j,
        {
            j = j + 1;
        }
        proof {
            assert(next_slash(s@, j as int) == next_slash(s@, i as int + 1));
            assert(j as int == next_slash(s@, i as int + 1));
        }
        let ghost i0 = i as int;
        let ghost rlen0 = r@.len();
        let seg = s.substring_char(i, j).to_owned();
        r.push(seg);
        proof {
            assert(spec_split_from(s@, i0) =~= seq![s@.subrange(i0, j as int)]
                + spec_split_from(s@, j as int));
            assert(r@[rlen0 as int]@ == spec_split_from(s@, i0)[0]);
            assert forall|k: int| 0 <= k < r@.len() implies (#[trigger] r@[k])@
                == spec_split_path(s@)[k] by {
                if k < rlen0 {
                    assert(r@[k] == r@.drop_last()[k]);
                }
            }
            assert forall|k: int|
                0 <= k < spec_split_from(s@, j as int).len() implies spec_split_from(
                s@,
                j as int,
            )[k] == spec_split_path(s@)[r@.len() + k] by {
                assert(spec_split_from(s@, i0)[k + 1] == spec_split_from(s@, j as int)[k]);
            }
        }
        i = j;
    }
    proof {
        assert(spec_split_from(s@, n as int) =~= Seq::<Seq<char>>::empty());
    }
    r
}

} // verus!

verus! {

/// One entry of a route table: the segment pattern it matches. A pattern
/// of the shape `/:name` matches any segment and binds `name` to the
/// segment's text.
#[derive(Debug)]
pub struct Route {
    pub path: String,
}

/// Whether a pattern is a parameter binder, of the shape `/:name`.
pub open spec fn spec_is_param(pattern: Seq<char>) -> bool {
    pattern.len() >= 2 && pattern[0] == '/' && pattern[1] == ':'
}

/// The first route whose pattern accepts `head`: a parameter binder
/// accepts anything, a literal pattern only its own text; `-1` when none
/// accepts.
pub open spec fn spec_match_index(patterns: Seq<Seq<char>>, head: Seq<char>, i: int) -> int
    decreases patterns.len() - i when 0 <= i <= patterns.len()
{
    if i >= patterns.len() {
        -1
    } else if spec_is_param(patterns[i]) || patterns[i] == head {
        i
    } else {
        spec_match_index(patterns, head, i + 1)
    }
}

/// The name a parameter binder binds (its text after `/:`) and the value
/// it binds it to (the segment's text after its leading slash).
pub open spec fn spec_param_binding(pattern: Seq<char>, head: Seq<char>) -> (Seq<char>, Seq<char>) {
    (
        pattern.subrange(2, pattern.len() as int),
        if head.len() >= 1 && head[0] == '/' {
            head.subrange(1, head.len() as int)
        } else {
            head
        },
    )
}

/// Whether a pattern is a parameter binder, decided exactly.
pub fn is_param_pattern(pattern: &str) -> (r: bool)
    ensures
        r == spec_is_param(pattern@),
{
    pattern.unicode_len() >= 2 && pattern.get_char(0) == '/' && pattern.get_char(1) == ':'
}

/// Finds the first route accepting the head path segment, as a current
/// route context's lookup does: a literal pattern must equal the
/// segment; a `/:name` pattern accepts any segment and yields the bound
/// parameter. Returns the route's position and the binding, if any.
pub fn match_route(routes: &Vec<Route>, head: &String) -> (r: Option<(usize, Option<(
    String,
    String,
)>)>)
    ensures
        ({
            let patterns = routes@.map_values(|rt: Route| rt.path@);
            let mi = spec_match_index(patterns, head@, 0);
            if mi == -1 {
                r is None
            } else {
                r matches Some(m) && m.0 == mi && (if spec_is_param(patterns[mi]) {
                    m.1 matches Some(b) && b.0@ == spec_param_binding(patterns[mi], head@).0
                        && b.1@ == spec_param_binding(patterns[mi], head@).1
                } else {
                    m.1 is None
                })
            }
        }),
{
    let ghost patterns = routes@.map_values(|rt: Route| rt.path@);
    let n = routes.len();
    let mut i: usize = 0;
    #[verifier::loop_isolation(false)]
    while i < n
        invariant
            0 <= i <= n,
            n == patterns.len(),
            spec_match_index(patterns, head@, 0) == spec_match_index(patterns, head@, i as int),
        decreases n - i,
    {
        let pattern = &routes[i].path;
        proof {
            assert(patterns[i as int] == pattern@);
        }
        if is_param_pattern(pattern.as_str()) {
            let name = pattern.as_str().substring_char(2, pattern.as_str().unicode_len()).to_owned();
            let hs = head.as_str();
            let value = if hs.unicode_len() >= 1 && hs.get_char(0) == '/' {
                hs.substring_char(1, hs.unicode_len()).to_owned()
            } else {
                hs.to_owned()
            };
            return Some((i, Some((name, value))));
        }
        if pattern.eq(head) {
            proof {
                assert(patterns[i as int] =~= head@);
            }
            return Some((i, None));
        }
        proof {
            assert(patterns[i as int] != head@);
            assert(spec_match_index(patterns, head@, i as int) == spec_match_index(
                patterns,
                head@,
                i as int + 1,
            ));
        }
        i = i + 1;
    }
    proof {
        assert(spec_match_index(patterns, head@, n as int) == -1);
    }
    None
}

} // verus!
