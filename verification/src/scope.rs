//! The binding environment: a persistent map from names to values.
//!
//! The map itself is `im::HashMap`, a hash-array-mapped trie with O(1)
//! clone and persistent update, so every statement can keep its
//! predecessor's scope intact. Its contents are modelled by the
//! uninterpreted [`scope_contents`]; the handful of methods the
//! evaluator needs are wrapped with contracts over that model.

use vstd::prelude::*;
use crate::eval::Value;

verus! {

#[verifier::external_type_specification]
#[verifier::external_body]
#[verifier::reject_recursive_types(K)]
#[verifier::reject_recursive_types(V)]
#[verifier::reject_recursive_types(S)]
pub struct ExImHashMap<K, V, S>(im::HashMap<K, V, S>);

/// The bindings an `im::HashMap` holds, keyed by the name's characters.
pub uninterp spec fn scope_contents(m: im::HashMap<String, Value>) -> Map<Seq<char>, Value>;

/// Relies on `im::HashMap::new`: a fresh map holds nothing.
#[verifier::external_body]
fn scope_map_new() -> (r: im::HashMap<String, Value>)
    ensures
        forall|k: Seq<char>| !scope_contents(r).contains_key(k),
{
    im::HashMap::new()
}

/// Relies on `im::HashMap::update`: a persistent insert; the map given
/// stays as it was, the result holds the new binding as well.
#[verifier::external_body]
fn scope_map_update(m: &im::HashMap<String, Value>, k: &str, v: Value) -> (r: im::HashMap<
    String,
    Value,
>)
    ensures
        scope_contents(r) == scope_contents(*m).insert(k@, v),
{
    m.update(k.to_owned(), v)
}

/// Relies on `im::HashMap::get`: lookup of a binding by name.
#[verifier::external_body]
fn scope_map_get<'m>(m: &'m im::HashMap<String, Value>, k: &str) -> (r: Option<&'m Value>)
    ensures
        match r {
            Some(v) => scope_contents(*m).contains_key(k@) && *v == scope_contents(*m)[k@],
            None => !scope_contents(*m).contains_key(k@),
        },
{
    m.get(k)
}

/// Relies on `im::HashMap::clone`: an O(1) handle to the same contents.
#[verifier::external_body]
fn scope_map_clone(m: &im::HashMap<String, Value>) -> (r: im::HashMap<String, Value>)
    ensures
        scope_contents(r) == scope_contents(*m),
{
    m.clone()
}

/// Relies on `im::HashMap::keys`: every key exactly once; the order is
/// the hasher's and nothing is promised of it.
#[verifier::external_body]
fn scope_map_keys(m: &im::HashMap<String, Value>) -> (r: Vec<String>)
    ensures
        r@.map_values(|s: String| s@).to_set() == scope_contents(*m).dom(),
        r@.map_values(|s: String| s@).no_duplicates(),
{
    m.keys().cloned().collect()
}

/// An immutable binding environment; each update yields a new scope and
/// leaves the old one untouched.
pub struct Scope {
    bindings: im::HashMap<String, Value>,
}

impl View for Scope {
    type V = Map<Seq<char>, Value>;

    closed spec fn view(&self) -> Map<Seq<char>, Value> {
        scope_contents(self.bindings)
    }
}

impl Scope {
    /// Every stored value is a well-formed set; a binding never holds
    /// the unit value.
    pub open spec fn wf(self) -> bool {
        forall|k: Seq<char>|
            self@.contains_key(k) ==> ((#[trigger] self@[k]).wf() && !(self@[k] is Unit))
    }

    /// The names bound in this scope, in the map's own order.
    pub fn keys(&self) -> (r: Vec<String>)
        ensures
            r@.map_values(|s: String| s@).to_set() == self@.dom(),
            r@.map_values(|s: String| s@).no_duplicates(),
    {
        scope_map_keys(&self.bindings)
    }

    /// Look a name up.
    pub fn get(&self, k: &str) -> (r: Option<&Value>)
        ensures
            match r {
                Some(v) => self@.contains_key(k@) && *v == self@[k@],
                None => !self@.contains_key(k@),
            },
    {
        scope_map_get(&self.bindings, k)
    }

    /// A new scope with `k` bound to `v`; this scope stays as it is.
    pub fn bind(&self, k: &str, v: Value) -> (r: Scope)
        ensures
            r@ == self@.insert(k@, v),
    {
        Scope { bindings: scope_map_update(&self.bindings, k, v) }
    }
}

impl Default for Scope {
    /// The empty scope.
    fn default() -> (r: Scope)
        ensures
            r@ == Map::<Seq<char>, Value>::empty(),
            r.wf(),
    {
        let s = Scope { bindings: scope_map_new() };
        proof {
            assert(s@ =~= Map::<Seq<char>, Value>::empty());
        }
        s
    }
}

impl Clone for Scope {
    fn clone(&self) -> (r: Self)
        ensures
            r@ == self@,
    {
        Scope { bindings: scope_map_clone(&self.bindings) }
    }
}

} // verus!
