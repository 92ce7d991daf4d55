//! What a store is made of: patches, backends that they are applied to, and
//! operations that plan them.
use crate::store::error::StateError;
use vstd::prelude::*;
use vstd::string::*;

verus! {

/// A description of changes. Patches are a monoid: combining them is
/// associative, and there is a patch that changes nothing.
pub trait Patch: View + Sized {
    /// Whether the patch is well formed.
    spec fn valid(&self) -> bool;

    /// The changes of `a` followed by those of `b`.
    spec fn joined(a: Self::V, b: Self::V) -> Self::V;

    /// The patch that changes nothing.
    spec fn identity() -> Self::V;

    /// Combining is associative, and the empty patch changes nothing.
    proof fn law_monoid(a: Self::V, b: Self::V, c: Self::V)
        ensures
            Self::joined(Self::joined(a, b), c) == Self::joined(a, Self::joined(b, c)),
            Self::joined(a, Self::identity()) == a,
            Self::joined(Self::identity(), a) == a,
    ;

    /// The patch that changes nothing.
    fn empty_patch() -> (r: Self)
        ensures
            r.valid(),
            r@ == Self::identity(),
    ;

    /// Adds the changes of another patch behind those of this one.
    fn combine_with(&mut self, other: Self)
        requires
            old(self).valid(),
            other.valid(),
        ensures
            final(self).valid(),
            final(self)@ == Self::joined(old(self)@, other@),
    ;
}

/// What can be read.
pub trait ReadContext {
    /// Whether what can be read is well formed.
    spec fn readable(&self) -> bool;

    /// The values by their keys.
    spec fn contents(&self) -> Map<Seq<u8>, Seq<u8>>;

    /// The value of a key.
    fn get(&self, key: &[u8]) -> (r: Result<Option<Vec<u8>>, StateError>)
        requires
            self.readable(),
        ensures
            r matches Ok(v) ==> match v {
                Some(x) => self.contents().dom().contains(key@) && x@ == self.contents()[key@],
                None => !self.contents().dom().contains(key@),
            },
    ;
}

/// A storage engine that patches are applied to.
pub trait StateBackend<P: Patch>: ReadContext {
    /// What a patch makes of the contents.
    spec fn patched(m: Map<Seq<u8>, Seq<u8>>, patch: P::V) -> Map<Seq<u8>, Seq<u8>>;

    /// Applies a patch, or leaves everything as it is.
    fn apply_patch(&mut self, patch: P) -> (r: Result<(), StateError>)
        requires
            old(self).readable(),
            patch.valid(),
        ensures
            final(self).readable(),
            match r {
                Ok(()) => final(self).contents() == Self::patched(old(self).contents(), patch@),
                Err(_) => final(self).contents() == old(self).contents(),
            },
    ;

    /// The keys that start with a prefix, with their values, in the order of the
    /// keys.
    fn scan(&self, prefix: &[u8]) -> (r: Result<Vec<(Vec<u8>, Vec<u8>)>, StateError>)
        requires
            self.readable(),
        ensures
            r matches Ok(v) ==> crate::store::state::pair_models(v@) == scanned(
                self.contents(),
                crate::table::sorted_keys(self.contents().dom()),
                prefix@,
            ),
    ;
}

/// The pairs of keys and values for those of the keys that start with a prefix.
pub open spec fn scanned(
    m: Map<Seq<u8>, Seq<u8>>,
    keys: Seq<Seq<u8>>,
    prefix: Seq<u8>,
) -> Seq<(Seq<u8>, Seq<u8>)>
    decreases keys.len(),
{
    if keys.len() == 0 {
        Seq::empty()
    } else {
        let before = scanned(m, keys.drop_last(), prefix);
        if prefix.is_prefix_of(keys.last()) {
            before.push((keys.last(), m[keys.last()]))
        } else {
            before
        }
    }
}

/// A scan gives exactly those of the keys that start with the prefix, each with its value,
/// in their order.
pub proof fn law_scan_is_by_prefix(
    m: Map<Seq<u8>, Seq<u8>>,
    keys: Seq<Seq<u8>>,
    prefix: Seq<u8>,
    k: Seq<u8>,
    v: Seq<u8>,
)
    ensures
        scanned(m, keys, prefix).contains((k, v)) <==> keys.contains(k) && v == m[k] && prefix.len()
            <= k.len() && k.take(prefix.len() as int) == prefix,
    decreases keys.len(),
{
    if keys.len() > 0 {
        let before = keys.drop_last();
        let x = keys.last();
        law_scan_is_by_prefix(m, before, prefix, k, v);
        let q = scanned(m, before, prefix);
        let r = scanned(m, keys, prefix);
        assert(keys.contains(k) <==> before.contains(k) || k == x) by {
            if before.contains(k) {
                assert(keys[before.index_of(k)] == k);
            }
            if keys.contains(k) && k != x {
                assert(before[keys.index_of(k)] == k);
            }
            assert(keys[keys.len() - 1] == x);
        }
        assert(prefix.is_prefix_of(x) <==> prefix.len() <= x.len() && x.take(prefix.len() as int)
            == prefix) by {
            if prefix.len() <= x.len() {
                assert(x.take(prefix.len() as int) =~= x.subrange(0, prefix.len() as int));
            }
        }
        if q.contains((k, v)) {
            assert(r[q.index_of((k, v))] == (k, v));
        }
        if r.contains((k, v)) {
            let i = r.index_of((k, v));
            if i < q.len() {
                assert(q[i] == (k, v));
            }
        }
        if r.len() > q.len() {
            assert(r[r.len() - 1] == (x, m[x]));
        }
    }
}

/// Why an operation cannot be planned.
#[derive(Debug, PartialEq, Eq)]
pub enum OpError {
    /// The state failed.
    State(StateError),
    /// The operation is not in order.
    Invalid(String),
}

impl OpError {
    /// The text of the error.
    pub open spec fn text(self) -> Seq<char> {
        match self {
            OpError::State(e) => "State error: "@ + e@.text(),
            OpError::Invalid(t) => "Invalid operation: "@ + t@,
        }
    }

    /// The text of the error.
    pub fn to_string(&self) -> (r: String)
        ensures
            r@ == self.text(),
    {
        match self {
            OpError::State(e) => "State error: ".to_owned().concat(e.to_string().as_str()),
            OpError::Invalid(t) => "Invalid operation: ".to_owned().concat(t.as_str()),
        }
    }
}

/// An operation that plans a patch by the state and does not apply it.
pub trait Applyable<P: Patch> {
    /// Checks whether the operation may be performed. By default it may.
    fn validate<C: ReadContext>(&self, _ctx: &C) -> (r: Result<(), OpError>)
        default_ensures
            r is Ok,
    {
        Ok(())
    }

    /// The patch that performs the operation.
    fn plan<C: ReadContext>(&self, ctx: &C) -> (r: Result<P, OpError>);
}

} // verus!
