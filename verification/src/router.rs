//! The router: a pure, stateless dispatch from a parsed request to one of
//! a closed set of handler capabilities. Writing the selected handler's
//! response to an output sink is the caller's part, not the router's.

use crate::httprequest::{HttpRequest, Method, Resource};
use crate::strutil::{contains_char, find_char, find_char_in, lemma_split_len, spec_split, str_eq};
use vstd::prelude::*;

verus! {

/// The closed set of handler capabilities a request can be dispatched to.
#[derive(Debug, PartialEq, Eq, Structural, Clone, Copy)]
pub enum HandlerKind {
    WebService,
    StaticPage,
    NotFound,
}

/// Where a request goes: any method other than `Get` goes to `NotFound`
/// whatever the path; a `Get` whose path's second `/`-separated segment is
/// the literal `"api"` goes to `WebService`; every other `Get` goes to
/// `StaticPage`.
pub open spec fn spec_route(m: Method, path: Seq<char>) -> HandlerKind {
    if m != Method::Get {
        HandlerKind::NotFound
    } else if spec_split(path, '/').len() >= 2 && spec_split(path, '/')[1] == "api"@ {
        HandlerKind::WebService
    } else {
        HandlerKind::StaticPage
    }
}

/// The second `/`-separated segment of `s`: what stands between the first
/// separator and the next one (or the end).
fn second_segment<'a>(s: &'a str) -> (r: &'a str)
    requires
        contains_char(s@, '/'),
    ensures
        spec_split(s@, '/').len() >= 2,
        r@ == spec_split(s@, '/')[1],
{
    let n = s.unicode_len();
    let p = find_char_in(s, '/');
    let rest = s.substring_char(p + 1, n);
    let q = find_char_in(rest, '/');
    let seg = s.substring_char(p + 1, p + 1 + q);
    proof {
        lemma_split_len(s@, '/');
        let tail = s@.subrange(p + 1 as int, n as int);
        assert(rest@ == tail);
        assert(spec_split(s@, '/')[1] == spec_split(tail, '/')[0]);
        assert(seg@ =~= tail.subrange(0, q as int));
        if q < tail.len() {
            assert(spec_split(tail, '/')[0] == tail.subrange(0, find_char(tail, '/') as int));
        } else {
            assert(seg@ =~= tail);
        }
    }
    seg
}

/// The router. It keeps no state: dispatch is a pure function of the
/// request's method and path.
pub struct Router;

impl Router {
    /// Select the handler capability for `req`. A `Get` whose path has no
    /// `/` at all (fewer than two segments) is a caller contract violation
    /// and is excluded up front.
    pub fn route(req: HttpRequest) -> (h: HandlerKind)
        requires
            req.method == Method::Get ==> contains_char(req.resource.path(), '/'),
        ensures
            h == spec_route(req.method, req.resource.path()),
    {
        match req.method {
            Method::Get => {
                match &req.resource {
                    Resource::Path(s) => {
                        let seg = second_segment(s.as_str());
                        if str_eq(seg, "api") {
                            HandlerKind::WebService
                        } else {
                            HandlerKind::StaticPage
                        }
                    },
                }
            },
            _ => HandlerKind::NotFound,
        }
    }
}

/// Any request whose method is not `Get` is routed to the not-found
/// handler, whatever its resource holds.
pub proof fn lemma_non_get_routes_not_found(m: Method, path: Seq<char>)
    requires
        m != Method::Get,
    ensures
        spec_route(m, path) == HandlerKind::NotFound,
{
}

} // verus!
