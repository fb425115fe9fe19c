//! Classification of request paths.

use vstd::prelude::*;
use vstd::string::*;
use vstd::slice::*;

verus! {

/// The byte `/`.
pub const SLASH: u8 = 47;

/// The byte of the digit `0`.
pub const ZERO: u8 = 48;

/// The byte of the digit `9`.
pub const NINE: u8 = 57;

/// What the identifier segment of an item path held.
#[derive(Clone, Copy, Debug, PartialEq, Eq, Structural)]
pub enum IdSegment {
    /// The path ended right after `/user/`.
    Absent,
    /// The digits name this identifier.
    Parsed(usize),
    /// The digits name a number too large for an identifier.
    Unparsable,
}

/// The intent that a request path expresses.
#[derive(Clone, Copy, Debug, PartialEq, Eq, Structural)]
pub enum Route {
    Index,
    Collection,
    Item(IdSegment),
    NotFound,
}

pub open spec fn is_digit(b: u8) -> bool {
    ZERO <= b <= NINE
}

pub open spec fn all_digits(s: Seq<u8>) -> bool {
    forall|i: int| 0 <= i < s.len() ==> is_digit(#[trigger] s[i])
}

/// The number that a sequence of decimal digits denotes, leading zeros allowed.
pub open spec fn digits_value(s: Seq<u8>) -> nat
    decreases s.len(),
{
    if s.len() == 0 {
        0
    } else {
        digits_value(s.drop_last()) * 10 + (s.last() - ZERO) as nat
    }
}

/// The identifier that a non-empty run of digits names, if it fits.
pub open spec fn id_of_digits(digits: Seq<u8>) -> IdSegment {
    if digits_value(digits) <= usize::MAX {
        IdSegment::Parsed(digits_value(digits) as usize)
    } else {
        IdSegment::Unparsable
    }
}

/// The route of a path `/user/` followed by `rest`.
pub open spec fn item_route(rest: Seq<u8>) -> Route {
    if rest.len() == 0 {
        Route::Item(IdSegment::Absent)
    } else {
        let digits = if rest.last() == SLASH {
            rest.drop_last()
        } else {
            rest
        };
        if digits.len() > 0 && all_digits(digits) {
            Route::Item(id_of_digits(digits))
        } else {
            Route::NotFound
        }
    }
}

/// The route of a path: the index page under `/`, `/index.htm` and
/// `/index.html`; the collection under `/users` and `/users/`; an item under
/// `/user/`, `/user/<digits>` and `/user/<digits>/`; nothing else.
pub open spec fn route_of(path: Seq<u8>) -> Route {
    if path == "/".spec_bytes() || path == "/index.htm".spec_bytes() || path
        == "/index.html".spec_bytes() {
        Route::Index
    } else if path == "/users".spec_bytes() || path == "/users/".spec_bytes() {
        Route::Collection
    } else if "/user/".spec_bytes().is_prefix_of(path) {
        item_route(path.skip("/user/".spec_bytes().len() as int))
    } else {
        Route::NotFound
    }
}

/// Whether two byte strings are the same.
pub fn bytes_eq(a: &[u8], b: &[u8]) -> (same: bool)
    ensures
        same == (a@ == b@),
{
    if a.len() != b.len() {
        return false;
    }
    let mut i: usize = 0;
    while i < a.len()
        invariant
            a@.len() == b@.len(),
            i <= a@.len(),
            a@.take(i as int) == b@.take(i as int),
        decreases a@.len() - i,
    {
        if a[i] != b[i] {
            return false;
        }
        proof {
            assert(a@.take(i + 1) =~= a@.take(i as int).push(a@[i as int]));
            assert(b@.take(i + 1) =~= b@.take(i as int).push(b@[i as int]));
        }
        i += 1;
    }
    proof {
        assert(a@.take(a@.len() as int) =~= a@);
        assert(b@.take(b@.len() as int) =~= b@);
    }
    true
}

/// Whether `path` begins with `prefix`.
pub fn starts_with(path: &[u8], prefix: &[u8]) -> (yes: bool)
    ensures
        yes == prefix@.is_prefix_of(path@),
{
    if path.len() < prefix.len() {
        return false;
    }
    let head = slice_subrange(path, 0, prefix.len());
    let same = bytes_eq(head, prefix);
    proof {
        assert(path@.subrange(0, prefix@.len() as int) =~= path@.take(prefix@.len() as int));
        if prefix@.is_prefix_of(path@) {
            assert(path@.take(prefix@.len() as int) =~= prefix@);
        }
    }
    same
}

proof fn lemma_value_grows(s: Seq<u8>)
    requires
        s.len() > 0,
        is_digit(s.last()),
    ensures
        digits_value(s) >= digits_value(s.drop_last()),
        digits_value(s) == digits_value(s.drop_last()) * 10 + (s.last() - ZERO),
{
}

/// Reads `digits` as a decimal number: `None` where a byte is no digit,
/// otherwise the identifier, or the mark that it does not fit.
pub fn parse_digits(digits: &[u8]) -> (id: Option<IdSegment>)
    ensures
        id == (if all_digits(digits@) {
            Some(id_of_digits(digits@))
        } else {
            None
        }),
{
    let mut value: usize = 0;
    let mut fits = true;
    let mut i: usize = 0;
    while i < digits.len()
        invariant
            i <= digits@.len(),
            all_digits(digits@.take(i as int)),
            fits ==> value == digits_value(digits@.take(i as int)),
            !fits ==> digits_value(digits@.take(i as int)) > usize::MAX,
        decreases digits@.len() - i,
    {
        let b = digits[i];
        if b < ZERO || b > NINE {
            assert(!is_digit(digits@[i as int]));
            return None;
        }
        proof {
            let next = digits@.take(i + 1);
            assert(next.drop_last() =~= digits@.take(i as int));
            assert(next.last() == b);
            lemma_value_grows(next);
        }
        if fits {
            match value.checked_mul(10) {
                Some(tens) => match tens.checked_add((b - ZERO) as usize) {
                    Some(sum) => {
                        value = sum;
                    },
                    None => {
                        fits = false;
                    },
                },
                None => {
                    fits = false;
                },
            }
        }
        i += 1;
    }
    proof {
        assert(digits@.take(digits@.len() as int) =~= digits@);
    }
    if fits {
        Some(IdSegment::Parsed(value))
    } else {
        Some(IdSegment::Unparsable)
    }
}

/// Classifies what follows `/user/` in a path.
pub fn match_item(rest: &[u8]) -> (route: Route)
    ensures
        route == item_route(rest@),
{
    let n = rest.len();
    if n == 0 {
        return Route::Item(IdSegment::Absent);
    }
    let end = if rest[n - 1] == SLASH {
        n - 1
    } else {
        n
    };
    let digits = slice_subrange(rest, 0, end);
    proof {
        assert(rest@.subrange(0, n as int) =~= rest@);
        assert(rest@.subrange(0, n - 1) =~= rest@.drop_last());
    }
    if end == 0 {
        return Route::NotFound;
    }
    match parse_digits(digits) {
        Some(id) => Route::Item(id),
        None => Route::NotFound,
    }
}

/// Classifies a request path. Every path has exactly one route.
pub fn match_route(path: &[u8]) -> (route: Route)
    ensures
        route == route_of(path@),
{
    if bytes_eq(path, "/".as_bytes()) || bytes_eq(path, "/index.htm".as_bytes()) || bytes_eq(
        path,
        "/index.html".as_bytes(),
    ) {
        Route::Index
    } else if bytes_eq(path, "/users".as_bytes()) || bytes_eq(path, "/users/".as_bytes()) {
        Route::Collection
    } else {
        let prefix = "/user/".as_bytes();
        if starts_with(path, prefix) {
            let rest = slice_subrange(path, prefix.len(), path.len());
            proof {
                assert(path@.subrange(prefix@.len() as int, path@.len() as int) =~= path@.skip(
                    prefix@.len() as int,
                ));
            }
            match_item(rest)
        } else {
            Route::NotFound
        }
    }
}

} // verus!
