//! Startup selection of the storage engine from a connection URI.
//!
//! The scheme — what stands before the first "://" separator, or the whole
//! string when none occurs — names the engine. An unrecognized scheme is a
//! fatal configuration error for the caller; nothing is guessed.

use vstd::prelude::*;

verus! {

/// The storage engines a deployment can select between.
#[derive(Clone, Copy, PartialEq, Eq, Structural, Debug)]
pub enum EngineKind {
    Postgres,
    Sqlite,
}

/// Where the scheme of a connection URI ends: the position of the first
/// "://" separator, or the length when no separator occurs.
pub open spec fn scheme_end(s: Seq<u8>) -> int
    decreases s.len(),
{
    if s.len() < 3 {
        s.len() as int
    } else if s[0] == 58 && s[1] == 47 && s[2] == 47 {
        0
    } else {
        1 + scheme_end(s.drop_first())
    }
}

/// The scheme of a connection URI.
pub open spec fn uri_scheme(s: Seq<u8>) -> Seq<u8> {
    s.take(scheme_end(s))
}

/// "postgres", as bytes.
pub open spec fn postgres_scheme() -> Seq<u8> {
    seq![112u8, 111u8, 115u8, 116u8, 103u8, 114u8, 101u8, 115u8]
}

/// "sqlite", as bytes.
pub open spec fn sqlite_scheme() -> Seq<u8> {
    seq![115u8, 113u8, 108u8, 105u8, 116u8, 101u8]
}

/// The engine a URI selects, if its scheme names one.
pub open spec fn spec_engine_for(s: Seq<u8>) -> Option<EngineKind> {
    if uri_scheme(s) == postgres_scheme() {
        Some(EngineKind::Postgres)
    } else if uri_scheme(s) == sqlite_scheme() {
        Some(EngineKind::Sqlite)
    } else {
        None
    }
}

/// The scheme ends no later than the string does.
pub proof fn lemma_scheme_end_bounds(s: Seq<u8>)
    ensures
        0 <= scheme_end(s) <= s.len(),
    decreases s.len(),
{
    if s.len() < 3 {
    } else if s[0] == 58 && s[1] == 47 && s[2] == 47 {
    } else {
        lemma_scheme_end_bounds(s.drop_first());
    }
}

/// Finds where the scheme of the URI ends.
fn scheme_split(uri: &[u8]) -> (end: usize)
    ensures
        end == scheme_end(uri@),
        end <= uri.len(),
{
    let mut j: usize = 0;
    proof {
        assert(uri@.skip(0) =~= uri@);
    }
    while j < uri.len() && uri.len() - j >= 3
        invariant
            j <= uri.len(),
            scheme_end(uri@) == j + scheme_end(uri@.skip(j as int)),
        decreases uri.len() - j,
    {
        let a = uri[j];
        let b = uri[j + 1];
        let c = uri[j + 2];
        proof {
            assert(uri@.skip(j as int).len() >= 3);
            assert(uri@.skip(j as int)[0] == uri@[j as int]);
            assert(uri@.skip(j as int)[1] == uri@[j + 1]);
            assert(uri@.skip(j as int)[2] == uri@[j + 2]);
        }
        if a == 58 && b == 47 && c == 47 {
            proof {
                assert(scheme_end(uri@.skip(j as int)) == 0);
            }
            return j;
        }
        proof {
            assert(uri@.skip(j as int).drop_first() =~= uri@.skip(j + 1));
        }
        j += 1;
    }
    proof {
        assert(uri@.skip(j as int).len() < 3);
        assert(scheme_end(uri@.skip(j as int)) == uri@.len() - j);
    }
    uri.len()
}

/// Does the URI's scheme read exactly as this word?
fn scheme_is(uri: &[u8], end: usize, word: &Vec<u8>) -> (r: bool)
    requires
        end <= uri.len(),
    ensures
        r == (uri@.take(end as int) == word@),
{
    if end != word.len() {
        proof {
            assert(uri@.take(end as int).len() != word@.len());
        }
        return false;
    }
    let mut i: usize = 0;
    while i < end
        invariant
            i <= end <= uri.len(),
            end == word@.len(),
            forall|k: int| 0 <= k < i ==> uri@.take(end as int)[k] == word@[k],
        decreases end - i,
    {
        if uri[i] != word[i] {
            proof {
                assert(uri@.take(end as int)[i as int] != word@[i as int]);
            }
            return false;
        }
        proof {
            assert(uri@.take(end as int)[i as int] == uri@[i as int]);
        }
        i += 1;
    }
    proof {
        assert(uri@.take(end as int) =~= word@);
    }
    true
}

/// "postgres", as a byte word to compare against.
fn postgres_word() -> (w: Vec<u8>)
    ensures
        w@ == postgres_scheme(),
{
    let mut w: Vec<u8> = Vec::new();
    w.push(112);
    w.push(111);
    w.push(115);
    w.push(116);
    w.push(103);
    w.push(114);
    w.push(101);
    w.push(115);
    proof {
        assert(w@ =~= postgres_scheme());
    }
    w
}

/// "sqlite", as a byte word to compare against.
fn sqlite_word() -> (w: Vec<u8>)
    ensures
        w@ == sqlite_scheme(),
{
    let mut w: Vec<u8> = Vec::new();
    w.push(115);
    w.push(113);
    w.push(108);
    w.push(105);
    w.push(116);
    w.push(101);
    proof {
        assert(w@ =~= sqlite_scheme());
    }
    w
}

/// Selects the storage engine from a connection URI, read as bytes: the
/// scheme "postgres" or "sqlite" names its engine; anything else selects
/// nothing and the caller must refuse to start.
pub fn engine_for_uri(uri: &[u8]) -> (r: Option<EngineKind>)
    ensures
        r == spec_engine_for(uri@),
{
    let end = scheme_split(uri);
    let pg = postgres_word();
    if scheme_is(uri, end, &pg) {
        return Some(EngineKind::Postgres);
    }
    let sq = sqlite_word();
    if scheme_is(uri, end, &sq) {
        return Some(EngineKind::Sqlite);
    }
    None
}

} // verus!
