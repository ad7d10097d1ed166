//! The rule of the JSON reader: no object may name a field twice, at any depth, so
//! that a field never has two interpretations. The reader walks the document and
//! asks, for each object, whether each key is new.
use crate::text::{chars_of, seq_eq};
use vstd::prelude::*;

verus! {

/// The field names already read in one JSON object.
pub struct FieldNames {
    seen: Vec<String>,
}

impl FieldNames {
    /// The names read so far.
    pub closed spec fn names(&self) -> Set<Seq<char>> {
        self.seen@.map_values(|s: String| s@).to_set()
    }

    /// No name read yet.
    pub fn new() -> (r: Self)
        ensures
            r.names() == Set::<Seq<char>>::empty(),
    {
        let r = FieldNames { seen: Vec::new() };
        assert(r.names() =~= Set::<Seq<char>>::empty());
        r
    }

    /// Records `name`; whether it had not been read before in this object.
    pub fn first_use(&mut self, name: &str) -> (r: bool)
        ensures
            r == !old(self).names().contains(name@),
            final(self).names() == old(self).names().insert(name@),
    {
        let n = chars_of(name);
        let ghost before = self.seen@.map_values(|s: String| s@);
        for k in 0..self.seen.len()
            invariant
                before == self.seen@.map_values(|s: String| s@),
                n@ == name@,
                forall|i: int| 0 <= i < k ==> #[trigger] before[i] != name@,
        {
            assert(before[k as int] == self.seen@[k as int]@);
            if seq_eq(&chars_of(self.seen[k].as_str()), &n) {
                assert(before[k as int] == name@);
                assert(before.contains(name@));
                assert(self.names().contains(name@));
                assert(self.names() =~= self.names().insert(name@));
                return false;
            }
        }
        assert(!self.names().contains(name@)) by {
            if self.names().contains(name@) {
                let i = choose|i: int| 0 <= i < before.len() && before[i] == name@;
            }
        }
        self.seen.push(name.to_string());
        proof {
            let after = self.seen@.map_values(|s: String| s@);
            assert(after =~= before.push(name@));
            assert(after.to_set() =~= before.to_set().insert(name@)) by {
                assert forall|y: Seq<char>| after.to_set().contains(y) implies before.to_set().insert(name@).contains(y) by {
                    let i = choose|i: int| 0 <= i < after.len() && after[i] == y;
                    if i < before.len() {
                        assert(before[i] == y);
                    }
                }
                assert forall|y: Seq<char>| before.to_set().insert(name@).contains(y) implies after.to_set().contains(y) by {
                    if y == name@ {
                        assert(after[before.len() as int] == y);
                    } else {
                        let i = choose|i: int| 0 <= i < before.len() && before[i] == y;
                        assert(after[i] == y);
                    }
                }
            }
        }
        true
    }
}

} // verus!
