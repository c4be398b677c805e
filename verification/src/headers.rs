//! A header mapping from names to values. Its model is a `Map` over
//! character sequences; insertion replaces the value of an existing name.

use crate::strutil::str_eq;
use vstd::prelude::*;

verus! {

/// The map described by a sequence of name/value pairs, a later pair
/// shadowing an earlier one with the same name.
pub open spec fn pairs_map(ps: Seq<(Seq<char>, Seq<char>)>) -> Map<Seq<char>, Seq<char>>
    decreases ps.len(),
{
    if ps.len() == 0 {
        Map::empty()
    } else {
        pairs_map(ps.drop_last()).insert(ps.last().0, ps.last().1)
    }
}

/// A pair whose name no later pair repeats gives its value to the map.
proof fn lemma_pairs_map_get(ps: Seq<(Seq<char>, Seq<char>)>, j: int)
    requires
        0 <= j < ps.len(),
        forall|i: int| j < i < ps.len() ==> ps[i].0 != ps[j].0,
    ensures
        pairs_map(ps).contains_key(ps[j].0),
        pairs_map(ps)[ps[j].0] == ps[j].1,
    decreases ps.len(),
{
    if j != ps.len() - 1 {
        assert(ps.drop_last()[j] == ps[j]);
        lemma_pairs_map_get(ps.drop_last(), j);
    }
}

/// A name that no pair carries is not in the map.
proof fn lemma_pairs_map_absent(ps: Seq<(Seq<char>, Seq<char>)>, k: Seq<char>)
    requires
        forall|i: int| 0 <= i < ps.len() ==> ps[i].0 != k,
    ensures
        !pairs_map(ps).contains_key(k),
    decreases ps.len(),
{
    if ps.len() > 0 {
        assert(ps[ps.len() - 1].0 != k);
        lemma_pairs_map_absent(ps.drop_last(), k);
    }
}

/// The header section of a request: a mapping from header names to header
/// values, keys unique at the level of the model.
#[derive(Debug, PartialEq)]
pub struct Headers {
    pairs: Vec<(String, String)>,
}

impl View for Headers {
    type V = Map<Seq<char>, Seq<char>>;

    closed spec fn view(&self) -> Map<Seq<char>, Seq<char>> {
        pairs_map(self.pairs.deep_view())
    }
}

impl Headers {
    /// An empty header mapping.
    pub fn new() -> (h: Headers)
        ensures
            h@ == Map::<Seq<char>, Seq<char>>::empty(),
    {
        let h = Headers { pairs: Vec::new() };
        proof {
            assert(h.pairs.deep_view() =~= Seq::<(Seq<char>, Seq<char>)>::empty());
        }
        h
    }

    /// Record `value` under `name`, replacing any value the name had.
    pub fn insert(&mut self, name: String, value: String)
        ensures
            final(self)@ == old(self)@.insert(name@, value@),
    {
        let ghost old_ps = self.pairs.deep_view();
        self.pairs.push((name, value));
        proof {
            assert(self.pairs.deep_view().drop_last() =~= old_ps);
        }
    }

    /// The value recorded under `name`, if the name is in the mapping.
    pub fn get<'a>(&'a self, name: &str) -> (r: Option<&'a String>)
        ensures
            match r {
                Some(v) => self@.contains_key(name@) && v@ == self@[name@],
                None => !self@.contains_key(name@),
            },
    {
        let ghost ps = self.pairs.deep_view();
        let mut j: usize = self.pairs.len();
        while j > 0
            invariant
                j <= self.pairs.len(),
                ps == self.pairs.deep_view(),
                forall|i: int| j <= i < ps.len() ==> ps[i].0 != name@,
            decreases j,
        {
            j -= 1;
            if str_eq(self.pairs[j].0.as_str(), name) {
                proof {
                    lemma_pairs_map_get(ps, j as int);
                }
                return Some(&self.pairs[j].1);
            }
        }
        proof {
            lemma_pairs_map_absent(ps, name@);
        }
        None
    }

    /// Whether `name` is in the mapping.
    pub fn contains_name(&self, name: &str) -> (r: bool)
        ensures
            r == self@.contains_key(name@),
    {
        match self.get(name) {
            Some(_) => true,
            None => false,
        }
    }
}

} // verus!
