use vstd::prelude::*;

use crate::error::EngineError;

verus! {

/// The parts of a parsed URI that identity resolution reads: the scheme
/// and the decoded query pairs, in order.
pub struct UriParts {
    pub scheme: String,
    pub query: Vec<(String, String)>,
}

/// What parsing `s` as a URI gives: `None` where it is not a well-formed URI.
pub uninterp spec fn parsed_uri(s: Seq<char>) -> Option<UriParts>;

/// Relies on `url::Url::parse` for well-formedness, and on the parsed URL's
/// `scheme` and `query_pairs` (percent-decoded key/value pairs in order);
/// all three depend on the text alone.
#[verifier::external_body]
fn parse_uri(s: &str) -> (r: Option<UriParts>)
    ensures
        r == parsed_uri(s@),
{
    url::Url::parse(s).ok().map(|u| UriParts {
        scheme: u.scheme().to_string(),
        query: u.query_pairs().map(|(k, v)| (k.into_owned(), v.into_owned())).collect(),
    })
}

pub open spec fn btih_prefix() -> Seq<char> {
    "urn:btih:"@
}

/// A query pair that names a torrent: key `xt`, value `urn:btih:` followed
/// by the identifier.
pub open spec fn names_btih(key: Seq<char>, value: Seq<char>) -> bool {
    key == "xt"@ && btih_prefix().is_prefix_of(value)
}

/// The identifier named by the first query pair that names one.
pub open spec fn first_btih(q: Seq<(String, String)>) -> Option<Seq<char>>
    decreases q.len(),
{
    if q.len() == 0 {
        None
    } else if names_btih(q[0].0@, q[0].1@) {
        Some(q[0].1@.skip(btih_prefix().len() as int))
    } else {
        first_btih(q.skip(1))
    }
}

/// The identifier of a parsed magnet URI; `None` for another scheme or where
/// no query pair names one.
pub open spec fn magnet_identifier(p: UriParts) -> Option<Seq<char>> {
    if p.scheme@ == "magnet"@ {
        first_btih(p.query@)
    } else {
        None
    }
}

/// The identifier that the text `s` names as a magnet URI.
pub open spec fn uri_identifier(s: Seq<char>) -> Option<Seq<char>> {
    match parsed_uri(s) {
        Some(p) => magnet_identifier(p),
        None => None,
    }
}

fn has_prefix(s: &str, p: &str) -> (r: bool)
    ensures
        r == p@.is_prefix_of(s@),
{
    let n: usize = p.unicode_len();
    if n > s.unicode_len() {
        return false;
    }
    let mut i: usize = 0;
    while i < n
        invariant
            n == p@.len(),
            n <= s@.len(),
            i <= n,
            forall|j: int| 0 <= j < i ==> s@[j] == p@[j],
        decreases n - i,
    {
        if s.get_char(i) != p.get_char(i) {
            return false;
        }
        i = i + 1;
    }
    assert(p@ =~= s@.subrange(0, n as int));
    true
}

pub(crate) fn same_text(a: &str, b: &str) -> (r: bool)
    ensures
        r == (a@ == b@),
{
    if a.unicode_len() != b.unicode_len() {
        return false;
    }
    let r = has_prefix(a, b);
    if r {
        assert(a@ =~= b@);
    }
    r
}

/// Extracts the identifier from the parts of a parsed URI; fails with
/// `InvalidIdentifier` exactly where the scheme is not `magnet` or no query
/// pair is `xt=urn:btih:<identifier>`.
pub fn identifier_from_parts(p: &UriParts) -> (r: Result<String, EngineError>)
    ensures
        match magnet_identifier(*p) {
            Some(x) => r is Ok && r->Ok_0@ == x,
            None => r == Err::<String, EngineError>(EngineError::InvalidIdentifier),
        },
{
    if !same_text(p.scheme.as_str(), "magnet") {
        return Err(EngineError::InvalidIdentifier);
    }
    let prefix = "urn:btih:";
    let n: usize = prefix.unicode_len();
    let ghost q = p.query@;
    let mut i: usize = 0;
    assert(q.skip(0) =~= q);
    while i < p.query.len()
        invariant
            q == p.query@,
            p.scheme@ == "magnet"@,
            prefix@ == btih_prefix(),
            n == btih_prefix().len(),
            i <= q.len(),
            first_btih(q) == first_btih(q.skip(i as int)),
        decreases q.len() - i,
    {
        assert(q.skip(i as int)[0] == q[i as int]);
        assert(q.skip(i as int).skip(1) =~= q.skip(i + 1));
        let key = p.query[i].0.as_str();
        let value = p.query[i].1.as_str();
        if same_text(key, "xt") && has_prefix(value, prefix) {
            let m: usize = value.unicode_len();
            let id = value.substring_char(n, m).to_owned();
            assert(id@ =~= value@.skip(n as int));
            assert(names_btih(q[i as int].0@, q[i as int].1@));
            assert(first_btih(q.skip(i as int)) == Some(q[i as int].1@.skip(n as int)));
            return Ok(id);
        }
        i = i + 1;
    }
    assert(q.skip(i as int) =~= Seq::<(String, String)>::empty());
    Err(EngineError::InvalidIdentifier)
}

/// Resolves the identifier of a magnet URI: the value after `urn:btih:` of
/// its first such `xt` parameter. Fails with `InvalidIdentifier` where the
/// text is not a well-formed URI, its scheme is not `magnet`, or no such
/// parameter is present.
pub fn identifier_from_uri(uri: &str) -> (r: Result<String, EngineError>)
    ensures
        match uri_identifier(uri@) {
            Some(x) => r is Ok && r->Ok_0@ == x,
            None => r == Err::<String, EngineError>(EngineError::InvalidIdentifier),
        },
{
    match parse_uri(uri) {
        None => Err(EngineError::InvalidIdentifier),
        Some(p) => identifier_from_parts(&p),
    }
}

/// A well-formed magnet URI whose first identifying query pair is
/// `xt=urn:btih:X` resolves to `X`.
pub proof fn lemma_magnet_names_identifier(s: Seq<char>, i: int, x: Seq<char>)
    requires
        parsed_uri(s) is Some,
        parsed_uri(s)->Some_0.scheme@ == "magnet"@,
        0 <= i < parsed_uri(s)->Some_0.query@.len(),
        parsed_uri(s)->Some_0.query@[i].0@ == "xt"@,
        parsed_uri(s)->Some_0.query@[i].1@ == btih_prefix() + x,
        forall|j: int|
            0 <= j < i ==> !names_btih(
                #[trigger] parsed_uri(s)->Some_0.query@[j].0@,
                parsed_uri(s)->Some_0.query@[j].1@,
            ),
    ensures
        uri_identifier(s) == Some(x),
{
    let q = parsed_uri(s)->Some_0.query@;
    lemma_first_btih_at(q, i, x);
}

/// Where no query pair names an identifier, there is none.
pub proof fn lemma_no_btih(q: Seq<(String, String)>)
    requires
        forall|j: int| 0 <= j < q.len() ==> !names_btih(#[trigger] q[j].0@, q[j].1@),
    ensures
        first_btih(q) is None,
    decreases q.len(),
{
    if q.len() > 0 {
        let r = q.skip(1);
        assert forall|j: int| 0 <= j < r.len() implies !names_btih(#[trigger] r[j].0@, r[j].1@) by {
            assert(r[j] == q[j + 1]);
        }
        lemma_no_btih(r);
        assert(!names_btih(q[0].0@, q[0].1@));
    }
}

proof fn lemma_first_btih_at(q: Seq<(String, String)>, i: int, x: Seq<char>)
    requires
        0 <= i < q.len(),
        q[i].0@ == "xt"@,
        q[i].1@ == btih_prefix() + x,
        forall|j: int| 0 <= j < i ==> !names_btih(#[trigger] q[j].0@, q[j].1@),
    ensures
        first_btih(q) == Some(x),
    decreases i,
{
    if i == 0 {
        assert(btih_prefix().is_prefix_of(q[0].1@)) by {
            assert(btih_prefix() =~= q[0].1@.subrange(0, btih_prefix().len() as int));
        }
        assert(q[0].1@.skip(btih_prefix().len() as int) =~= x);
    } else {
        let r = q.skip(1);
        assert forall|j: int| 0 <= j < i - 1 implies !names_btih(#[trigger] r[j].0@, r[j].1@) by {
            assert(r[j] == q[j + 1]);
        }
        lemma_first_btih_at(r, i - 1, x);
        assert(!names_btih(q[0].0@, q[0].1@));
    }
}

} // verus!
