//! The variable environment: a mapping from variable name to the bit
//! pattern of a previously computed 64-bit value, persisted across the
//! expressions of one session.  Later bindings of a name shadow earlier
//! ones, so a binding may be overwritten by inserting the name again.
use vstd::prelude::*;

verus! {

/// Looks a name up in a binding sequence: the value of the latest binding
/// of that name, if there is one.
pub open spec fn spec_lookup(entries: Seq<(Seq<char>, u64)>, name: Seq<char>) -> Option<u64>
    decreases entries.len(),
{
    if entries.len() == 0 {
        None
    } else if entries.last().0 == name {
        Some(entries.last().1)
    } else {
        spec_lookup(entries.drop_last(), name)
    }
}

/// A mapping from variable name to the bit pattern of its 64-bit value.
#[derive(Debug)]
pub struct Environment {
    entries: Vec<(String, u64)>,
}

impl View for Environment {
    type V = Seq<(Seq<char>, u64)>;

    closed spec fn view(&self) -> Seq<(Seq<char>, u64)> {
        self.entries@.map_values(|e: (String, u64)| (e.0@, e.1))
    }
}

impl Environment {
    /// An empty environment.
    pub fn new() -> (r: Environment)
        ensures
            r@ =~= Seq::<(Seq<char>, u64)>::empty(),
    {
        let e = Environment { entries: Vec::new() };
        proof {
            assert(e@ =~= Seq::<(Seq<char>, u64)>::empty());
        }
        e
    }

    /// Binds `name` to `value_bits`, shadowing any earlier binding.
    pub fn insert(&mut self, name: String, value_bits: u64)
        ensures
            final(self)@ =~= old(self)@.push((name@, value_bits)),
    {
        let ghost before = self@;
        self.entries.push((name, value_bits));
        proof {
            assert(self@ =~= before.push((self.entries@.last().0@, value_bits)));
        }
    }

    /// The value bound to `name`, if any.
    pub fn get(&self, name: &str) -> (r: Option<u64>)
        ensures
            r == spec_lookup(self@, name@),
    {
        let n = self.entries.len();
        let mut i = n;
        proof {
            assert(self@.subrange(0, n as int) =~= self@);
        }
        while i > 0
            invariant
                i <= n,
                n == self.entries@.len(),
                spec_lookup(self@, name@) == spec_lookup(self@.subrange(0, i as int), name@),
            decreases i,
        {
            i = i - 1;
            proof {
                assert(self@.subrange(0, i + 1).last() == self@[i as int]);
                assert(self@.subrange(0, i + 1).drop_last() =~= self@.subrange(0, i as int));
            }
            if crate::tokens::str_eq(self.entries[i].0.as_str(), name) {
                assert(self@[i as int].0 == name@);
                return Some(self.entries[i].1);
            }
            proof {
                assert(self@[i as int].0 != name@);
            }
        }
        proof {
            assert(self@.subrange(0, 0) =~= Seq::<(Seq<char>, u64)>::empty());
        }
        None
    }
}

} // verus!
