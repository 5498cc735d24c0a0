//! The keys of scoped pools.
use vstd::prelude::*;

verus! {

/// A key of a cache. Its view is the scope that it names: two keys are for the
/// same pool exactly when their scopes are equal, so whatever tells the
/// credentials of two pools apart belongs into the scope.
pub trait ScopeKey: View + Sized {
    /// Whether both keys name the same scope.
    fn same_scope(&self, other: &Self) -> (same: bool)
        ensures
            same == (self@ == other@),
    ;

    /// A second key for the same scope.
    fn duplicate(&self) -> (key: Self)
        ensures
            key@ == self@,
    ;
}

/// A scope that is told apart by a delegated token.
#[derive(Debug, PartialEq, Eq, Hash)]
pub struct PoolScopeKey {
    /// The token, where the scope has one.
    pub token: Option<String>,
}

impl View for PoolScopeKey {
    type V = Option<Seq<char>>;

    open spec fn view(&self) -> Option<Seq<char>> {
        match self.token {
            Some(token) => Some(token@),
            None => None,
        }
    }
}

impl Default for PoolScopeKey {
    /// The scope without a token.
    fn default() -> (key: Self)
        ensures
            key@ == None::<Seq<char>>,
    {
        PoolScopeKey { token: None }
    }
}

impl Clone for PoolScopeKey {
    /// A second key for the same scope.
    fn clone(&self) -> (key: Self)
        ensures
            key@ == self@,
    {
        match &self.token {
            Some(token) => PoolScopeKey { token: Some(token.clone()) },
            None => PoolScopeKey { token: None },
        }
    }
}

/// Two keys name the same scope exactly if their tokens read the same, or neither
/// has one: no two tokens ever share a scope.
pub proof fn law_scopes_are_told_apart_by_token(a: PoolScopeKey, b: PoolScopeKey)
    ensures
        a@ == b@ <==> (a.token is Some <==> b.token is Some) && (a.token is Some && b.token is Some
            ==> a.token->0@ == b.token->0@),
{
}

impl ScopeKey for PoolScopeKey {
    fn same_scope(&self, other: &Self) -> (same: bool) {
        match (&self.token, &other.token) {
            (Some(a), Some(b)) => *a == *b,
            (None, None) => true,
            _ => false,
        }
    }

    fn duplicate(&self) -> (key: Self) {
        self.clone()
    }
}

} // verus!
