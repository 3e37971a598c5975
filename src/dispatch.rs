use vstd::prelude::*;
use vstd::string::StringSliceAdditionalSpecFns;

verus! {

/// A fully framed request: method, target path, headers and body.
/// Only the method and the path take part in matching.
#[derive(Clone, Debug, PartialEq, Eq)]
pub struct Request {
    pub method: Vec<u8>,
    pub path: Vec<u8>,
    pub headers: Vec<(String, String)>,
    pub body: Vec<u8>,
}

/// A response: status code, headers and body.
#[derive(Clone, Debug, PartialEq, Eq)]
pub struct Response {
    pub status: u16,
    pub headers: Vec<(String, String)>,
    pub body: Vec<u8>,
}

/// The status sent when no stack matches a request.
pub const STATUS_NOT_FOUND: u16 = 404;

/// The status sent when the matched stack's handler fails.
pub const STATUS_SERVER_ERROR: u16 = 500;

/// `p` is a prefix of `s`.
pub open spec fn is_prefix(p: Seq<u8>, s: Seq<u8>) -> bool {
    p.len() <= s.len() && s.subrange(0, p.len() as int) == p
}

/// Tests whether `p` is a prefix of `s`.
pub fn has_prefix(p: &[u8], s: &[u8]) -> (r: bool)
    ensures
        r == is_prefix(p@, s@),
{
    if p.len() > s.len() {
        return false;
    }
    let mut i: usize = 0;
    while i < p.len()
        invariant
            p@.len() <= s@.len(),
            i <= p@.len(),
            forall|j: int| 0 <= j < i ==> s@[j] == p@[j],
        decreases p@.len() - i,
    {
        if p[i] != s[i] {
            assert(s@.subrange(0, p@.len() as int)[i as int] != p@[i as int]);
            return false;
        }
        i = i + 1;
    }
    assert(s@.subrange(0, p@.len() as int) =~= p@);
    true
}

impl Request {
    /// Builds a request with no headers.
    pub fn new(method: &str, path: &str, body: Vec<u8>) -> (r: Request)
        ensures
            r.method@ == method.spec_bytes(),
            r.path@ == path.spec_bytes(),
            r.headers@.len() == 0,
            r.body@ == body@,
    {
        Request {
            method: vstd::slice::slice_to_vec(method.as_bytes()),
            path: vstd::slice::slice_to_vec(path.as_bytes()),
            headers: Vec::new(),
            body,
        }
    }
}

impl Response {
    /// A response with the given status, no headers and the given body.
    pub fn with_body(status: u16, body: Vec<u8>) -> (r: Response)
        ensures
            r.status == status,
            r.headers@.len() == 0,
            r.body@ == body@,
    {
        Response { status, headers: Vec::new(), body }
    }

    /// The response synthesised when no stack matches.
    pub fn not_found() -> (r: Response)
        ensures
            r.status == STATUS_NOT_FOUND,
            r.headers@.len() == 0,
            r.body@.len() == 0,
    {
        Response::with_body(STATUS_NOT_FOUND, Vec::new())
    }

    /// The response synthesised when the matched stack's handler fails.
    pub fn server_error() -> (r: Response)
        ensures
            r.status == STATUS_SERVER_ERROR,
            r.headers@.len() == 0,
            r.body@.len() == 0,
    {
        Response::with_body(STATUS_SERVER_ERROR, Vec::new())
    }
}

/// The discriminator of one stack: a rule on the method and the path.
#[derive(Clone, Debug, PartialEq, Eq)]
pub enum Matcher {
    /// The path starts with the given bytes.
    PathPrefix(Vec<u8>),
    /// The method equals the given bytes.
    Method(Vec<u8>),
    /// Both of the above.
    MethodAndPrefix(Vec<u8>, Vec<u8>),
}

impl Matcher {
    pub open spec fn spec_matches(&self, method: Seq<u8>, path: Seq<u8>) -> bool {
        match self {
            Matcher::PathPrefix(p) => is_prefix(p@, path),
            Matcher::Method(m) => m@ == method,
            Matcher::MethodAndPrefix(m, p) => m@ == method && is_prefix(p@, path),
        }
    }

    /// Tests the rule against a request's method and path.
    pub fn matches(&self, req: &Request) -> (r: bool)
        ensures
            r == self.spec_matches(req.method@, req.path@),
    {
        match self {
            Matcher::PathPrefix(p) => has_prefix(p.as_slice(), req.path.as_slice()),
            Matcher::Method(m) => bytes_equal(m.as_slice(), req.method.as_slice()),
            Matcher::MethodAndPrefix(m, p) => {
                bytes_equal(m.as_slice(), req.method.as_slice()) && has_prefix(
                    p.as_slice(),
                    req.path.as_slice(),
                )
            },
        }
    }
}

impl Matcher {
    /// The method the rule asks for, if it asks for one.
    pub open spec fn method_rule(&self) -> Option<Seq<u8>> {
        match self {
            Matcher::PathPrefix(_) => None,
            Matcher::Method(m) => Some(m@),
            Matcher::MethodAndPrefix(m, _) => Some(m@),
        }
    }

    /// The path prefix the rule asks for, if it asks for one.
    pub open spec fn prefix_rule(&self) -> Option<Seq<u8>> {
        match self {
            Matcher::PathPrefix(p) => Some(p@),
            Matcher::Method(_) => None,
            Matcher::MethodAndPrefix(_, p) => Some(p@),
        }
    }

    /// Some request matches both rules.
    pub open spec fn spec_overlaps(&self, other: &Matcher) -> bool {
        exists|m: Seq<u8>, p: Seq<u8>| self.spec_matches(m, p) && other.spec_matches(m, p)
    }

    fn method_bytes(&self) -> (r: Option<&Vec<u8>>)
        ensures
            r matches Some(m) ==> self.method_rule() == Some(m@),
            r is None ==> self.method_rule() is None,
    {
        match self {
            Matcher::PathPrefix(_) => None,
            Matcher::Method(m) => Some(m),
            Matcher::MethodAndPrefix(m, _) => Some(m),
        }
    }

    fn prefix_bytes(&self) -> (r: Option<&Vec<u8>>)
        ensures
            r matches Some(p) ==> self.prefix_rule() == Some(p@),
            r is None ==> self.prefix_rule() is None,
    {
        match self {
            Matcher::PathPrefix(p) => Some(p),
            Matcher::Method(_) => None,
            Matcher::MethodAndPrefix(_, p) => Some(p),
        }
    }

    /// Tests whether some request would match both rules.
    pub fn overlaps(&self, other: &Matcher) -> (r: bool)
        ensures
            r == self.spec_overlaps(other),
    {
        let methods_meet = match (self.method_bytes(), other.method_bytes()) {
            (Some(a), Some(b)) => bytes_equal(a.as_slice(), b.as_slice()),
            _ => true,
        };
        let prefixes_meet = match (self.prefix_bytes(), other.prefix_bytes()) {
            (Some(a), Some(b)) => has_prefix(a.as_slice(), b.as_slice()) || has_prefix(
                b.as_slice(),
                a.as_slice(),
            ),
            _ => true,
        };
        proof {
            lemma_overlap_by_parts(*self, *other);
        }
        methods_meet && prefixes_meet
    }
}

/// The rule's method part admits `method`.
pub open spec fn method_admits(rule: Option<Seq<u8>>, method: Seq<u8>) -> bool {
    rule matches Some(m) ==> m == method
}

/// The rule's prefix part admits `path`.
pub open spec fn prefix_admits(rule: Option<Seq<u8>>, path: Seq<u8>) -> bool {
    rule matches Some(p) ==> is_prefix(p, path)
}

/// Two rules overlap exactly when their methods agree wherever both name one,
/// and one prefix extends the other wherever both name one.
pub open spec fn overlap_by_parts(x: Matcher, y: Matcher) -> bool {
    &&& (x.method_rule() is None || y.method_rule() is None || x.method_rule()
        == y.method_rule())
    &&& (x.prefix_rule() is None || y.prefix_rule() is None || is_prefix(
        x.prefix_rule()->0,
        y.prefix_rule()->0,
    ) || is_prefix(y.prefix_rule()->0, x.prefix_rule()->0))
}

proof fn lemma_matches_by_parts(x: Matcher, m: Seq<u8>, p: Seq<u8>)
    ensures
        x.spec_matches(m, p) == (method_admits(x.method_rule(), m) && prefix_admits(
            x.prefix_rule(),
            p,
        )),
{
}

/// Two prefixes of one sequence: the shorter is a prefix of the longer.
proof fn lemma_common_prefixes(a: Seq<u8>, b: Seq<u8>, s: Seq<u8>)
    requires
        is_prefix(a, s),
        is_prefix(b, s),
        a.len() <= b.len(),
    ensures
        is_prefix(a, b),
{
    assert(b.subrange(0, a.len() as int) =~= s.subrange(0, a.len() as int));
}

proof fn lemma_prefix_refl(a: Seq<u8>)
    ensures
        is_prefix(a, a),
{
    assert(a.subrange(0, a.len() as int) =~= a);
}

proof fn lemma_overlap_by_parts(x: Matcher, y: Matcher)
    ensures
        x.spec_overlaps(&y) == overlap_by_parts(x, y),
{
    if overlap_by_parts(x, y) {
        let m = if x.method_rule() is Some {
            x.method_rule()->0
        } else if y.method_rule() is Some {
            y.method_rule()->0
        } else {
            Seq::<u8>::empty()
        };
        let p = if x.prefix_rule() is Some && y.prefix_rule() is Some {
            if is_prefix(x.prefix_rule()->0, y.prefix_rule()->0) {
                y.prefix_rule()->0
            } else {
                x.prefix_rule()->0
            }
        } else if x.prefix_rule() is Some {
            x.prefix_rule()->0
        } else if y.prefix_rule() is Some {
            y.prefix_rule()->0
        } else {
            Seq::<u8>::empty()
        };
        lemma_prefix_refl(p);
        assert(Seq::<u8>::empty().subrange(0, 0) =~= Seq::<u8>::empty());
        lemma_matches_by_parts(x, m, p);
        lemma_matches_by_parts(y, m, p);
        assert(x.spec_matches(m, p) && y.spec_matches(m, p));
    }
    if x.spec_overlaps(&y) {
        let (m, p) = choose|m: Seq<u8>, p: Seq<u8>| x.spec_matches(m, p) && y.spec_matches(m, p);
        lemma_matches_by_parts(x, m, p);
        lemma_matches_by_parts(y, m, p);
        if x.prefix_rule() is Some && y.prefix_rule() is Some {
            let a = x.prefix_rule()->0;
            let b = y.prefix_rule()->0;
            if a.len() <= b.len() {
                lemma_common_prefixes(a, b, p);
            } else {
                lemma_common_prefixes(b, a, p);
            }
        }
    }
}

/// Tests two byte strings for equality.
pub fn bytes_equal(a: &[u8], b: &[u8]) -> (r: bool)
    ensures
        r == (a@ == b@),
{
    if a.len() != b.len() {
        return false;
    }
    let r = has_prefix(a, b);
    assert(b@.subrange(0, a@.len() as int) =~= b@);
    r
}

/// One registered pipeline: a name and the rule that selects it. Its handler
/// and shared context live with the caller, at the same index.
#[derive(Clone, Debug, PartialEq, Eq)]
pub struct Stack {
    pub name: String,
    pub matcher: Matcher,
}

/// Stack `i` is the first in `stacks` whose rule matches.
pub open spec fn is_first_match(stacks: Seq<Stack>, method: Seq<u8>, path: Seq<u8>, i: int) -> bool {
    &&& 0 <= i < stacks.len()
    &&& stacks[i].matcher.spec_matches(method, path)
    &&& forall|j: int| 0 <= j < i ==> !(#[trigger] stacks[j].matcher.spec_matches(method, path))
}

/// The index of the stack that handles a request with this method and path:
/// the first registered one that matches, if any.
pub open spec fn first_match(stacks: Seq<Stack>, method: Seq<u8>, path: Seq<u8>) -> Option<int> {
    if exists|i: int| is_first_match(stacks, method, path, i) {
        Some(choose|i: int| is_first_match(stacks, method, path, i))
    } else {
        None
    }
}

/// At most one index is the first match.
pub proof fn lemma_first_match_unique(stacks: Seq<Stack>, method: Seq<u8>, path: Seq<u8>, i: int, k: int)
    requires
        is_first_match(stacks, method, path, i),
        is_first_match(stacks, method, path, k),
    ensures
        i == k,
{
    if i < k {
        assert(!stacks[i].matcher.spec_matches(method, path));
    } else if k < i {
        assert(!stacks[k].matcher.spec_matches(method, path));
    }
}

/// Where a request goes.
#[derive(Clone, Copy, Debug, PartialEq, Eq)]
pub enum Route {
    /// To the stack at this index.
    Stack(usize),
    /// To no stack.
    NotFound,
}

impl Route {
    pub open spec fn spec_index(self) -> Option<int> {
        match self {
            Route::Stack(i) => Some(i as int),
            Route::NotFound => None,
        }
    }
}

/// The ordered set of stacks and the rule that picks one for each request.
pub struct Dispatcher {
    stacks: Vec<Stack>,
}

impl View for Dispatcher {
    type V = Seq<Stack>;

    closed spec fn view(&self) -> Seq<Stack> {
        self.stacks@
    }
}

impl Dispatcher {
    /// A dispatcher with no stacks.
    pub fn new() -> (r: Dispatcher)
        ensures
            r@ == Seq::<Stack>::empty(),
    {
        Dispatcher { stacks: Vec::new() }
    }

    /// Appends a stack; it is tried after all those registered before it.
    pub fn register(&mut self, stack: Stack)
        ensures
            final(self)@ == old(self)@.push(stack),
    {
        self.stacks.push(stack);
    }

    /// The number of registered stacks.
    pub fn len(&self) -> (r: usize)
        ensures
            r == self@.len(),
    {
        self.stacks.len()
    }

    /// The name of the stack at `i`.
    pub fn name(&self, i: usize) -> (r: &String)
        requires
            i < self@.len(),
        ensures
            *r == self@[i as int].name,
    {
        &self.stacks[i].name
    }

    /// No two registered stacks match a common request.
    pub open spec fn disjoint(&self) -> bool {
        rules_disjoint(self@)
    }

    /// Checks at startup that the stacks' rules are disjoint: returns the
    /// first pair of stacks, by the later one and then the earlier, that some
    /// request would match both, or none if there is no such pair.
    pub fn find_overlap(&self) -> (r: Option<(usize, usize)>)
        ensures
            r is None <==> self.disjoint(),
            r matches Some((i, j)) ==> i < j < self@.len() && self@[i as int].matcher.spec_overlaps(
                &self@[j as int].matcher,
            ),
            r matches Some((i, j)) ==> forall|a: int, b: int|
                0 <= a < b < j ==> !#[trigger] self@[a].matcher.spec_overlaps(
                    &#[trigger] self@[b].matcher,
                ),
            r matches Some((i, j)) ==> forall|a: int|
                0 <= a < i ==> !#[trigger] self@[a].matcher.spec_overlaps(&self@[j as int].matcher),
    {
        let n = self.stacks.len();
        let mut j: usize = 0;
        while j < n
            invariant
                n == self@.len(),
                j <= n,
                forall|a: int, b: int|
                    0 <= a < b < j ==> !#[trigger] self@[a].matcher.spec_overlaps(
                        &#[trigger] self@[b].matcher,
                    ),
            decreases n - j,
        {
            let mut i: usize = 0;
            while i < j
                invariant
                    n == self@.len(),
                    i <= j < n,
                    forall|a: int, b: int|
                        0 <= a < b < j ==> !#[trigger] self@[a].matcher.spec_overlaps(
                            &#[trigger] self@[b].matcher,
                        ),
                    forall|a: int|
                        0 <= a < i ==> !#[trigger] self@[a].matcher.spec_overlaps(
                            &self@[j as int].matcher,
                        ),
                decreases j - i,
            {
                if self.stacks[i].matcher.overlaps(&self.stacks[j].matcher) {
                    return Some((i, j));
                }
                i = i + 1;
            }
            j = j + 1;
        }
        None
    }

    /// Picks the stack for a request: the first, in order of registration,
    /// whose rule matches.
    pub fn route(&self, req: &Request) -> (r: Route)
        ensures
            r.spec_index() == first_match(self@, req.method@, req.path@),
            r matches Route::Stack(i) ==> i < self@.len(),
    {
        let mut i: usize = 0;
        while i < self.stacks.len()
            invariant
                i <= self.stacks@.len(),
                forall|j: int|
                    0 <= j < i ==> !(#[trigger] self.stacks@[j].matcher.spec_matches(
                        req.method@,
                        req.path@,
                    )),
            decreases self.stacks@.len() - i,
        {
            if self.stacks[i].matcher.matches(req) {
                proof {
                    let s = self.stacks@;
                    assert(is_first_match(s, req.method@, req.path@, i as int));
                    let k = choose|k: int| is_first_match(s, req.method@, req.path@, k);
                    lemma_first_match_unique(s, req.method@, req.path@, i as int, k);
                }
                return Route::Stack(i);
            }
            i = i + 1;
        }
        assert(!exists|k: int| is_first_match(self@, req.method@, req.path@, k));
        Route::NotFound
    }
}

/// A handler's failure: recorded for diagnostics, never re-raised.
#[derive(Clone, Debug, PartialEq, Eq)]
pub struct HandlerError {
    pub message: String,
}

/// How one request's dispatch ended.
#[derive(Clone, Copy, Debug, PartialEq, Eq)]
pub enum Completion {
    Success,
    Mismatch,
    HandlerFailure,
}

/// What the caller does after matching: invoke one stack's handler, or send
/// the response at once.
#[derive(Clone, Debug, PartialEq, Eq)]
pub enum DispatchAction {
    Invoke(usize),
    Respond(Response),
}

/// The handlers invoked for a request with this method and path, in order:
/// that of the first matching stack, or none.
pub open spec fn invoked_stacks(stacks: Seq<Stack>, method: Seq<u8>, path: Seq<u8>) -> Seq<int> {
    match first_match(stacks, method, path) {
        Some(i) => seq![i],
        None => Seq::empty(),
    }
}

impl DispatchAction {
    /// The stacks whose handler this action invokes.
    pub open spec fn invokes(self) -> Seq<int> {
        match self {
            DispatchAction::Invoke(i) => seq![i as int],
            DispatchAction::Respond(_) => Seq::empty(),
        }
    }
}

impl Dispatcher {
    /// Starts a request's dispatch: the first matching stack is to be invoked;
    /// with no match the response is the not-found one.
    pub fn begin(&self, req: &Request) -> (r: DispatchAction)
        ensures
            r.invokes() == invoked_stacks(self@, req.method@, req.path@),
            r matches DispatchAction::Invoke(i) ==> i < self@.len(),
            r matches DispatchAction::Respond(resp) ==> resp.status == STATUS_NOT_FOUND
                && resp.headers@.len() == 0 && resp.body@.len() == 0,
    {
        match self.route(req) {
            Route::Stack(i) => {
                assert(seq![i as int] =~= invoked_stacks(self@, req.method@, req.path@));
                DispatchAction::Invoke(i)
            },
            Route::NotFound => DispatchAction::Respond(Response::not_found()),
        }
    }
}

/// Ends a request's dispatch with the outcome of the invoked handler: a
/// success passes through unchanged, a failure becomes the server-error
/// response.
pub fn settle(outcome: Result<Response, HandlerError>) -> (r: (Completion, Response))
    ensures
        r.0 == (if outcome is Ok {
            Completion::Success
        } else {
            Completion::HandlerFailure
        }),
        outcome is Ok ==> r.1 == outcome->Ok_0,
        outcome is Err ==> r.1.status == STATUS_SERVER_ERROR && r.1.headers@.len() == 0
            && r.1.body@.len() == 0,
{
    match outcome {
        Ok(resp) => (Completion::Success, resp),
        Err(_) => (Completion::HandlerFailure, Response::server_error()),
    }
}

/// When exactly one stack's rule matches a request, that stack's handler is
/// invoked once and no other handler is.
pub proof fn lemma_only_matching_stack_invoked(stacks: Seq<Stack>, method: Seq<u8>, path: Seq<u8>, k: int)
    requires
        0 <= k < stacks.len(),
        stacks[k].matcher.spec_matches(method, path),
        forall|j: int| 0 <= j < stacks.len() && j != k ==> !(#[trigger] stacks[j].matcher.spec_matches(method, path)),
    ensures
        first_match(stacks, method, path) == Some(k),
        invoked_stacks(stacks, method, path) == seq![k],
{
    assert(is_first_match(stacks, method, path, k));
    let c = choose|c: int| is_first_match(stacks, method, path, c);
    lemma_first_match_unique(stacks, method, path, k, c);
}

/// When several stacks match, the one registered first handles the request.
pub proof fn lemma_first_registered_wins(stacks: Seq<Stack>, method: Seq<u8>, path: Seq<u8>, k: int)
    requires
        0 <= k < stacks.len(),
        stacks[k].matcher.spec_matches(method, path),
        forall|j: int| 0 <= j < k ==> !(#[trigger] stacks[j].matcher.spec_matches(method, path)),
    ensures
        first_match(stacks, method, path) == Some(k),
        invoked_stacks(stacks, method, path) == seq![k],
{
    assert(is_first_match(stacks, method, path, k));
    let c = choose|c: int| is_first_match(stacks, method, path, c);
    lemma_first_match_unique(stacks, method, path, k, c);
}

/// No two stacks match a common request.
pub open spec fn rules_disjoint(stacks: Seq<Stack>) -> bool {
    forall|i: int, j: int|
        0 <= i < j < stacks.len() ==> !#[trigger] stacks[i].matcher.spec_overlaps(
            &#[trigger] stacks[j].matcher,
        )
}

/// With disjoint rules the order of registration does not matter: a request
/// goes to the one stack whose rule it matches.
pub proof fn lemma_disjoint_routes_to_match(stacks: Seq<Stack>, method: Seq<u8>, path: Seq<u8>, k: int)
    requires
        rules_disjoint(stacks),
        0 <= k < stacks.len(),
        stacks[k].matcher.spec_matches(method, path),
    ensures
        first_match(stacks, method, path) == Some(k),
        invoked_stacks(stacks, method, path) == seq![k],
{
    assert forall|j: int| 0 <= j < stacks.len() && j != k implies !(
    #[trigger] stacks[j].matcher.spec_matches(method, path)) by {
        if stacks[j].matcher.spec_matches(method, path) {
            if j < k {
                assert(stacks[j].matcher.spec_overlaps(&stacks[k].matcher));
            } else {
                assert(stacks[k].matcher.spec_overlaps(&stacks[j].matcher));
            }
        }
    }
    lemma_only_matching_stack_invoked(stacks, method, path, k);
}

/// When no stack's rule matches a request, no handler is invoked.
pub proof fn lemma_no_match_invokes_nothing(stacks: Seq<Stack>, method: Seq<u8>, path: Seq<u8>)
    requires
        forall|j: int| 0 <= j < stacks.len() ==> !(#[trigger] stacks[j].matcher.spec_matches(method, path)),
    ensures
        invoked_stacks(stacks, method, path) == Seq::<int>::empty(),
        first_match(stacks, method, path) is None,
{
}

} // verus!
