use vstd::prelude::*;
use std::collections::HashMap;

use crate::error::VoteError;

verus! {

broadcast use vstd::std_specs::hash::group_hash_axioms;

/// An election: its identifier, its display name (from which the proof
/// domain is derived), and the definition document it was loaded from.
pub struct Election {
    pub id: u32,
    pub name: String,
    pub definition: String,
}

/// The elections in load order, each later one replacing an earlier one
/// with the same identifier.
pub open spec fn catalog_of(s: Seq<Election>) -> Map<u32, Election>
    decreases s.len(),
{
    if s.len() == 0 {
        Map::empty()
    } else {
        catalog_of(s.drop_last()).insert(s.last().id, s.last())
    }
}

/// Whether a file name marks an election definition.
pub open spec fn is_election_file_name(name: Seq<char>) -> bool {
    name.len() >= 5 && name.subrange(name.len() - 5, name.len() as int) == seq!['.', 'v', 'o', 't', 'e']
}

/// The immutable registry of elections, keyed by identifier.
pub struct Catalog {
    elections: HashMap<u32, Election>,
}

impl View for Catalog {
    type V = Map<u32, Election>;

    closed spec fn view(&self) -> Map<u32, Election> {
        self.elections@
    }
}

/// Whether `name` ends with `.vote`, the suffix of election definition files.
pub fn is_election_file(name: &str) -> (r: bool)
    ensures
        r == is_election_file_name(name@),
{
    let n = name.unicode_len();
    if n < 5 {
        return false;
    }
    let r = name.get_char(n - 5) == '.' && name.get_char(n - 4) == 'v' && name.get_char(n - 3) == 'o'
        && name.get_char(n - 2) == 't' && name.get_char(n - 1) == 'e';
    let ghost tail = name@.subrange(n - 5, n as int);
    if r {
        assert(tail =~= seq!['.', 'v', 'o', 't', 'e']);
    } else {
        assert(tail.len() == 5);
        assert(tail != seq!['.', 'v', 'o', 't', 'e'] || tail[0] != '.' || tail[1] != 'v' || tail[2] != 'o' || tail[3] != 't' || tail[4] != 'e');
    }
    r
}

/// Builds the catalog from the parsed definitions, in load order.
pub fn init_elections(elections: Vec<Election>) -> (r: Catalog)
    ensures
        r@ == catalog_of(elections@),
{
    let ghost s = elections@;
    let mut map: HashMap<u32, Election> = HashMap::new();
    let n = elections.len();
    let mut rest = elections;
    let mut i: usize = 0;
    while rest.len() > 0
        invariant
            i + rest@.len() == s.len(),
            s.len() == n,
            rest@ == s.subrange(i as int, s.len() as int),
            map@ == catalog_of(s.subrange(0, i as int)),
        decreases rest@.len(),
    {
        let e = rest.remove(0);
        proof {
            assert(s.subrange(0, i + 1).drop_last() =~= s.subrange(0, i as int));
        }
        map.insert(e.id, e);
        i = i + 1;
    }
    assert(s.subrange(0, s.len() as int) =~= s);
    Catalog { elections: map }
}

/// A catalog built from definitions holds exactly their identifiers, and
/// each identifier names the last definition loaded with it.
pub proof fn lemma_catalog_holds_last(s: Seq<Election>, i: int)
    requires
        0 <= i < s.len(),
        forall|k: int| i < k < s.len() ==> (#[trigger] s[k]).id != s[i].id,
    ensures
        catalog_of(s).contains_key(s[i].id),
        catalog_of(s)[s[i].id] == s[i],
    decreases s.len(),
{
    if i < s.len() - 1 {
        let p = s.drop_last();
        assert forall|k: int| i < k < p.len() implies (#[trigger] p[k]).id != p[i].id by {
            assert(p[k] == s[k]);
        }
        lemma_catalog_holds_last(p, i);
        assert(s.last() == s[s.len() - 1]);
    }
}

/// An identifier that no definition carries is not in the catalog.
pub proof fn lemma_catalog_unregistered(s: Seq<Election>, id: u32)
    requires
        forall|k: int| 0 <= k < s.len() ==> (#[trigger] s[k]).id != id,
    ensures
        !catalog_of(s).contains_key(id),
    decreases s.len(),
{
    if s.len() > 0 {
        let p = s.drop_last();
        assert forall|k: int| 0 <= k < p.len() implies (#[trigger] p[k]).id != id by {
            assert(p[k] == s[k]);
        }
        lemma_catalog_unregistered(p, id);
        assert(s.last() == s[s.len() - 1]);
    }
}

impl Catalog {
    /// The election registered under `id`, or `NotFound`.
    pub fn lookup(&self, id: u32) -> (r: Result<&Election, VoteError>)
        ensures
            match r {
                Ok(e) => self@.contains_key(id) && *e == self@[id],
                Err(err) => err == VoteError::NotFound && !self@.contains_key(id),
            },
    {
        match self.elections.get(&id) {
            Some(e) => Ok(e),
            None => Err(VoteError::NotFound),
        }
    }
}

} // verus!
