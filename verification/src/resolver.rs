//! The resource resolver: a pure lookup from a request path to the bytes of an
//! embedded static asset, independent of any transport. A raw request path is
//! normalized first: the configured scheme prefix is stripped, then one
//! trailing slash. A missing asset is `ResourceNotFound`, carrying the
//! normalized path, surfaced to the embedding layer.

use vstd::prelude::*;

use crate::text::bytes_eq;
use crate::text::starts_with;

verus! {

/// One embedded static asset.
#[derive(Clone, Debug)]
pub struct Asset {
    pub path: Vec<u8>,
    pub contents: Vec<u8>,
}

#[derive(Clone, Debug)]
pub enum ResolveError {
    /// No asset has the (normalized) path.
    ResourceNotFound(Vec<u8>),
}

/// Strip the scheme prefix if present, then one trailing slash (byte 47).
pub open spec fn spec_normalize(raw: Seq<u8>, scheme: Seq<u8>) -> Seq<u8> {
    let stripped = if raw.len() >= scheme.len() && raw.subrange(0, scheme.len() as int)
        == scheme {
        raw.skip(scheme.len() as int)
    } else {
        raw
    };
    if stripped.len() > 0 && stripped.last() == 47 {
        stripped.drop_last()
    } else {
        stripped
    }
}

/// Contents of the first asset whose path is `p`, if any.
pub open spec fn spec_lookup(assets: Seq<Asset>, p: Seq<u8>) -> Option<Seq<u8>>
    decreases assets.len(),
{
    if assets.len() == 0 {
        None
    } else if assets[0].path@ == p {
        Some(assets[0].contents@)
    } else {
        spec_lookup(assets.skip(1), p)
    }
}

/// Normalize a raw request path against a scheme prefix.
pub fn normalize_path(raw: &Vec<u8>, scheme: &Vec<u8>) -> (r: Vec<u8>)
    ensures
        r@ == spec_normalize(raw@, scheme@),
{
    let pref = starts_with(raw, scheme);
    let start: usize = if pref {
        scheme.len()
    } else {
        0
    };
    let ghost stripped = if pref {
        raw@.skip(scheme@.len() as int)
    } else {
        raw@
    };
    proof {
        assert(stripped =~= raw@.skip(start as int));
    }
    let mut end: usize = raw.len();
    if end > start && raw[end - 1] == 47 {
        end = end - 1;
    }
    proof {
        assert(spec_normalize(raw@, scheme@) =~= raw@.subrange(start as int, end as int));
    }
    let mut out: Vec<u8> = Vec::new();
    let mut i: usize = start;
    while i < end
        invariant
            start <= i <= end <= raw@.len(),
            out@.len() == i - start,
            forall|j: int| 0 <= j < out@.len() ==> out@[j] == raw@[start + j],
        decreases end - i,
    {
        out.push(raw[i]);
        i = i + 1;
    }
    proof {
        assert(out@ =~= raw@.subrange(start as int, end as int));
    }
    out
}

/// The resource resolver: a scheme prefix and the embedded assets it serves.
pub struct ResourceResolver {
    scheme: Vec<u8>,
    assets: Vec<Asset>,
}

impl ResourceResolver {
    pub closed spec fn scheme_spec(&self) -> Seq<u8> {
        self.scheme@
    }

    pub closed spec fn assets_spec(&self) -> Seq<Asset> {
        self.assets@
    }

    pub fn new(scheme: Vec<u8>, assets: Vec<Asset>) -> (r: ResourceResolver)
        ensures
            r.scheme_spec() == scheme@,
            r.assets_spec() == assets@,
    {
        ResourceResolver { scheme, assets }
    }

    /// Resolve a raw request path: the contents of the first asset whose path
    /// equals the normalized request, or `ResourceNotFound` with the
    /// normalized path exactly when no asset has it. Never panics.
    pub fn resolve(&self, raw: &Vec<u8>) -> (r: Result<&Vec<u8>, ResolveError>)
        ensures
            match r {
                Ok(c) => spec_lookup(self.assets_spec(), spec_normalize(raw@, self.scheme_spec()))
                    == Some(c@),
                Err(e) => spec_lookup(
                    self.assets_spec(),
                    spec_normalize(raw@, self.scheme_spec()),
                ).is_none() && (match e {
                    ResolveError::ResourceNotFound(p) => p@ == spec_normalize(
                        raw@,
                        self.scheme_spec(),
                    ),
                }),
            },
    {
        let norm = normalize_path(raw, &self.scheme);
        proof {
            assert(self.assets@.skip(0) =~= self.assets@);
        }
        let mut i: usize = 0;
        while i < self.assets.len()
            invariant
                i <= self.assets@.len(),
                norm@ == spec_normalize(raw@, self.scheme_spec()),
                spec_lookup(self.assets@.skip(i as int), norm@) == spec_lookup(
                    self.assets@,
                    norm@,
                ),
            decreases self.assets@.len() - i,
        {
            proof {
                assert(self.assets@.skip(i as int)[0] == self.assets@[i as int]);
                assert(self.assets@.skip(i as int).skip(1) =~= self.assets@.skip(i as int + 1));
            }
            if bytes_eq(&self.assets[i].path, &norm) {
                return Ok(&self.assets[i].contents);
            }
            i = i + 1;
        }
        proof {
            assert(self.assets@.skip(i as int).len() == 0);
        }
        Err(ResolveError::ResourceNotFound(norm))
    }
}

} // verus!
