//! Verified core of a package build orchestrator.
//!
//! The library models the logic of a tool that builds an operating-system
//! package collection from source, one package at a time, inside disposable
//! build sandboxes: a line-oriented manifest parser, the classification of
//! dependency edges, a resumable breadth-first build planner, and the state
//! machine of the ephemeral build sandbox.  All input/output lives outside
//! the library; every function here is a total computation on plain values.

use vstd::prelude::*;

pub mod expand;
pub mod illumos;
pub mod ips;
pub mod planner;
pub mod project;
pub mod text;
pub mod zone;

use crate::text::{str_eq, vec_contains_string};

verus! {

/// The value `pairs` associates with `k`: that of the most recent insertion.
pub open spec fn spec_lookup(pairs: Seq<(Seq<char>, Seq<char>)>, k: Seq<char>) -> Option<
    Seq<char>,
>
    decreases pairs.len(),
{
    if pairs.len() == 0 {
        None
    } else if pairs.last().0 == k {
        Some(pairs.last().1)
    } else {
        spec_lookup(pairs.drop_last(), k)
    }
}

/// A small string-to-string map: an association list where the most recent
/// insertion for a key wins.
#[derive(Debug)]
pub struct Bindings {
    pairs: Vec<(String, String)>,
}

impl View for Bindings {
    type V = Seq<(Seq<char>, Seq<char>)>;

    closed spec fn view(&self) -> Seq<(Seq<char>, Seq<char>)> {
        self.pairs.deep_view()
    }
}

impl Bindings {
    /// An empty map.
    pub fn new() -> (r: Bindings)
        ensures
            r@ == Seq::<(Seq<char>, Seq<char>)>::empty(),
    {
        let r = Bindings { pairs: Vec::new() };
        proof {
            assert(r@ =~= Seq::<(Seq<char>, Seq<char>)>::empty());
        }
        r
    }

    /// Bind `k` to `v`, shadowing any earlier binding of `k`.
    pub fn insert(&mut self, k: &str, v: &str)
        ensures
            final(self)@ == old(self)@.push((k@, v@)),
    {
        let ghost p0 = self@;
        self.pairs.push((k.to_owned(), v.to_owned()));
        proof {
            assert(self@ =~~= p0.push((k@, v@)));
        }
    }

    /// The value bound to `k`, if any.
    pub fn get(&self, k: &str) -> (r: Option<String>)
        ensures
            match r {
                Some(v) => spec_lookup(self@, k@) == Some(v@),
                None => spec_lookup(self@, k@) is None,
            },
    {
        let n: usize = self.pairs.len();
        let mut i: usize = n;
        proof {
            assert(self@.take(n as int) =~= self@);
        }
        while i > 0
            invariant
                i <= n,
                n == self.pairs@.len(),
                spec_lookup(self@, k@) == spec_lookup(self@.take(i as int), k@),
            decreases i,
        {
            i = i - 1;
            proof {
                assert(self@.take(i as int + 1).drop_last() =~= self@.take(i as int));
                assert(self@.take(i as int + 1).last() == self@[i as int]);
            }
            if str_eq(self.pairs[i].0.as_str(), k) {
                return Some(self.pairs[i].1.clone());
            }
        }
        proof {
            assert(self@.take(0) =~= Seq::<(Seq<char>, Seq<char>)>::empty());
        }
        None
    }

    /// Whether `k` is bound at all.
    pub fn contains_key(&self, k: &str) -> (r: bool)
        ensures
            r == (spec_lookup(self@, k@) is Some),
    {
        self.get(k).is_some()
    }
}

} // verus!
