use vstd::prelude::*;
use crate::nibbles::Nibbles;

verus! {

/// Whether some key of `keys` begins with `prefix`.
pub open spec fn covers(keys: Seq<Seq<u8>>, prefix: Seq<u8>) -> bool {
    exists|i: int|
        0 <= i < keys.len() && prefix.len() <= keys[i].len() && #[trigger] keys[i].subrange(
            0,
            prefix.len() as int,
        ) == prefix
}

/// The paths changed since the last root computation. A cached digest of a
/// node whose path is a prefix of one of them is stale.
#[derive(Debug, Default)]
pub struct PrefixSet {
    keys: Vec<Nibbles>,
}

impl View for PrefixSet {
    type V = Seq<Seq<u8>>;

    closed spec fn view(&self) -> Seq<Seq<u8>> {
        self.keys@.map_values(|k: Nibbles| k@)
    }
}

impl PrefixSet {
    pub fn new() -> (r: Self)
        ensures
            r@ == Seq::<Seq<u8>>::empty(),
    {
        let r = PrefixSet { keys: Vec::new() };
        assert(r@ =~= Seq::<Seq<u8>>::empty());
        r
    }

    /// Records a changed path.
    pub fn insert(&mut self, key: Nibbles)
        ensures
            final(self)@ == old(self)@.push(key@),
    {
        self.keys.push(key);
        assert(self@ =~= old(self)@.push(key@));
    }

    /// Whether some recorded path begins with `prefix`.
    pub fn contains(&self, prefix: &Nibbles) -> (r: bool)
        ensures
            r == covers(self@, prefix@),
    {
        let mut i: usize = 0;
        while i < self.keys.len()
            invariant
                i <= self.keys@.len(),
                forall|j: int| 0 <= j < i ==> !(prefix@.len() <= self@[j].len() && #[trigger] self@[j].subrange(0, prefix@.len() as int) == prefix@),
            decreases self.keys@.len() - i,
        {
            if self.keys[i].starts_with(prefix) {
                assert(self@[i as int] == self.keys@[i as int]@);
                return true;
            }
            assert(self@[i as int] == self.keys@[i as int]@);
            i = i + 1;
        }
        false
    }

    /// Copies the set.
    pub fn duplicate(&self) -> (r: Self)
        ensures
            r@ == self@,
    {
        let mut keys: Vec<Nibbles> = Vec::new();
        let mut i: usize = 0;
        while i < self.keys.len()
            invariant
                i <= self.keys@.len(),
                keys@.len() == i,
                forall|j: int| 0 <= j < i ==> keys@[j]@ == self.keys@[j]@,
            decreases self.keys@.len() - i,
        {
            keys.push(self.keys[i].duplicate());
            i = i + 1;
        }
        let r = PrefixSet { keys };
        assert(r@ =~= self@);
        r
    }
}

} // verus!
