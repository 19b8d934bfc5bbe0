//! Cache validation for the bundled scripts and images.
use vstd::prelude::*;
use crate::api::{lies_within, refusal, result_view, ApiError, ErrorView};
use crate::state::strip_path_prefix;
use crate::text::{chars_eq, chars_of, is_piece, opt_view, trim, trim_range};

verus! {

/// The entity tag of the bundled assets: the package version, quoted.
pub open spec fn etag_spec() -> Seq<char> {
    "\"2.0.0\""@
}

/// The entity tag of the bundled assets.
pub fn static_etag() -> (r: String)
    ensures
        r@ == etag_spec(),
{
    String::from_str("\"2.0.0\"")
}

/// An `If-None-Match` value names the assets' tag: one of its comma-separated
/// tags equals it once surrounding whitespace is removed.
pub open spec fn etag_matches(header: Option<Seq<char>>) -> bool {
    match header {
        None => false,
        Some(h) => names_etag(h),
    }
}

/// One of the comma-separated tags of `h` is the assets' tag.
pub open spec fn names_etag(h: Seq<char>) -> bool {
    exists|a: int, b: int| is_piece(h, ',', a, b) && #[trigger] trim(h.subrange(a, b)) == etag_spec()
}

proof fn lemma_witness(h: Seq<char>, a: int, b: int)
    requires
        is_piece(h, ',', a, b),
        trim(h.subrange(a, b)) == etag_spec(),
    ensures
        etag_matches(Some(h)),
{
}

/// Whether the request's `If-None-Match` value (if it has a readable one)
/// names the assets' tag, so that `304 Not Modified` is answered.
pub fn check_etag(if_none_match: Option<&str>) -> (r: bool)
    ensures
        r == etag_matches(
            match if_none_match {
                Some(h) => Some(h@),
                None => None,
            },
        ),
{
    let h = match if_none_match {
        Some(h) => h,
        None => {
            return false;
        },
    };
    let v = chars_of(h);
    let tag_s = static_etag();
    let tag = chars_of(tag_s.as_str());
    let mut start: usize = 0;
    let mut i: usize = 0;
    while i < v.len()
        invariant
            start <= i <= v.len(),
            tag@ == etag_spec(),
            v@ == h@,
            if_none_match == Some(h),
            start == 0 || v@[start - 1] == ',',
            forall|j: int| start <= j < i ==> v@[j] != ',',
            forall|a: int, b: int|
                #![trigger is_piece(v@, ',', a, b)]
                is_piece(v@, ',', a, b) && a < start ==> trim(v@.subrange(a, b)) != tag@,
        decreases v.len() - i,
    {
        if v[i] == ',' {
            let piece = trim_range(v.as_slice(), start, i);
            assert(is_piece(v@, ',', start as int, i as int));
            if chars_eq(piece.as_slice(), tag.as_slice()) {
                proof { lemma_witness(h@, start as int, i as int); }
                return true;
            }
            assert forall|a: int, b: int|
                #![trigger is_piece(v@, ',', a, b)]
                is_piece(v@, ',', a, b) && a < i + 1 implies trim(v@.subrange(a, b)) != tag@ by {
                if a == start {
                    if b < i {
                        assert(v@[b] != ',');
                    } else if b > i {
                        assert(v@[i as int] != ',');
                    }
                } else if a > start {
                    assert(v@[a - 1] != ',');
                }
            }
            start = i + 1;
        }
        i += 1;
    }
    let piece = trim_range(v.as_slice(), start, v.len());
    assert(is_piece(v@, ',', start as int, v.len() as int));
    if chars_eq(piece.as_slice(), tag.as_slice()) {
        proof { lemma_witness(h@, start as int, v.len() as int); }
        return true;
    }
    assert forall|a: int, b: int| is_piece(v@, ',', a, b) implies trim(v@.subrange(a, b)) != tag@ by {
        if a == start {
            if b < v.len() {
                assert(v@[b] != ',');
            }
        } else if a > start {
            assert(v@[a - 1] != ',');
        }
    }
    false
}

/// The check on an image request: `resolved` is where the requested path
/// resolves on disk (`None` where it does not exist); it must lie below `base`.
pub open spec fn static_file_check(base: Seq<char>, resolved: Option<Seq<char>>) -> Result<Seq<char>, ErrorView> {
    match resolved {
        None => Err(refusal(404, "File not found"@)),
        Some(c) => if lies_within(c, base) {
            Ok(c)
        } else {
            Err(refusal(403, "Access denied"@))
        },
    }
}

/// Checks an image request: the file must exist and lie below `base`.
pub fn check_static_file(base: &str, resolved: Option<String>) -> (r: Result<String, ApiError>)
    ensures
        result_view(r) == static_file_check(base@, opt_view(resolved)),
{
    match resolved {
        None => Err(ApiError { status: 404, message: String::from_str("File not found") }),
        Some(c) => {
            if strip_path_prefix(c.as_str(), base).is_some() {
                Ok(c)
            } else {
                Err(ApiError { status: 403, message: String::from_str("Access denied") })
            }
        },
    }
}

} // verus!
