use vstd::prelude::*;

verus! {

/// Every element of `s` is a nibble, a value below sixteen.
pub open spec fn valid_nibbles(s: Seq<u8>) -> bool {
    forall|i: int| 0 <= i < s.len() ==> s[i] < 16
}

/// The nibbles of a byte string, high half of each byte first.
pub open spec fn unpacked(b: Seq<u8>) -> Seq<u8> {
    Seq::new(2 * b.len(), |i: int| if i % 2 == 0 { b[i / 2] / 16 } else { b[i / 2] % 16 })
}

/// Length of the longest common prefix of `a` and `b`.
pub open spec fn common_prefix_len(a: Seq<u8>, b: Seq<u8>) -> nat
    decreases a.len(),
{
    if a.len() == 0 || b.len() == 0 || a[0] != b[0] {
        0
    } else {
        1 + common_prefix_len(a.drop_first(), b.drop_first())
    }
}

/// An ordered sequence of nibbles: a path in the trie, or a piece of one.
#[derive(Debug, PartialEq, Eq, PartialOrd, Ord, Hash, Default)]
pub struct Nibbles {
    nibbles: Vec<u8>,
}

impl View for Nibbles {
    type V = Seq<u8>;

    closed spec fn view(&self) -> Seq<u8> {
        self.nibbles@
    }
}

impl Nibbles {
    #[verifier::type_invariant]
    spec fn inv(self) -> bool {
        valid_nibbles(self.nibbles@)
    }

    /// The empty path.
    pub fn new() -> (r: Self)
        ensures
            r@ == Seq::<u8>::empty(),
    {
        Nibbles { nibbles: Vec::new() }
    }

    /// A path of the given nibbles.
    pub fn from_nibbles(nibbles: Vec<u8>) -> (r: Self)
        requires
            valid_nibbles(nibbles@),
        ensures
            r@ == nibbles@,
    {
        Nibbles { nibbles }
    }

    /// The nibbles of a byte string, two for each byte, high half first.
    pub fn unpack(bytes: &[u8]) -> (r: Self)
        requires
            bytes@.len() * 2 <= usize::MAX,
        ensures
            r@ == unpacked(bytes@),
    {
        let mut v: Vec<u8> = Vec::with_capacity(bytes.len() * 2);
        let mut i: usize = 0;
        while i < bytes.len()
            invariant
                i <= bytes@.len(),
                v@ =~= unpacked(bytes@.subrange(0, i as int)),
            decreases bytes@.len() - i,
        {
            let b = bytes[i];
            v.push(b / 16);
            v.push(b % 16);
            i = i + 1;
            assert(v@ =~= unpacked(bytes@.subrange(0, i as int)));
        }
        assert(bytes@.subrange(0, bytes@.len() as int) =~= bytes@);
        assert(valid_nibbles(v@));
        Nibbles { nibbles: v }
    }

    /// The nibbles as a vector.
    pub fn to_vec(&self) -> (r: Vec<u8>)
        ensures
            r@ == self@,
    {
        self.nibbles.clone()
    }

    /// A path equal to this one.
    pub fn duplicate(&self) -> (r: Self)
        ensures
            r@ == self@,
    {
        proof { use_type_invariant(self); }
        Nibbles { nibbles: self.nibbles.clone() }
    }

    pub fn len(&self) -> (r: usize)
        ensures
            r == self@.len(),
    {
        self.nibbles.len()
    }

    pub fn is_empty(&self) -> (r: bool)
        ensures
            r == (self@.len() == 0),
    {
        self.nibbles.len() == 0
    }

    /// The nibble at index `i`.
    pub fn at(&self, i: usize) -> (r: u8)
        requires
            i < self@.len(),
        ensures
            r == self@[i as int],
            r < 16,
    {
        proof { use_type_invariant(self); }
        self.nibbles[i]
    }

    /// Appends one nibble.
    pub fn push(&mut self, n: u8)
        requires
            n < 16,
        ensures
            final(self)@ == old(self)@.push(n),
    {
        proof { use_type_invariant(&*self); }
        let mut v = self.nibbles.clone();
        v.push(n);
        *self = Nibbles { nibbles: v };
    }

    /// Appends every nibble of `other`.
    pub fn extend(&mut self, other: &Nibbles)
        ensures
            final(self)@ == old(self)@ + other@,
    {
        proof {
            use_type_invariant(&*self);
            use_type_invariant(other);
        }
        let ghost start = self.nibbles@;
        let mut v = self.nibbles.clone();
        let mut i: usize = 0;
        while i < other.nibbles.len()
            invariant
                i <= other.nibbles@.len(),
                valid_nibbles(other.nibbles@),
                v@ =~= start + other.nibbles@.subrange(0, i as int),
                valid_nibbles(v@),
            decreases other.nibbles@.len() - i,
        {
            v.push(other.nibbles[i]);
            i = i + 1;
            assert(v@ =~= start + other.nibbles@.subrange(0, i as int));
        }
        assert(other.nibbles@.subrange(0, i as int) =~= other.nibbles@);
        *self = Nibbles { nibbles: v };
    }

    /// The nibbles from index `start` up to, not including, `end`.
    pub fn slice(&self, start: usize, end: usize) -> (r: Self)
        requires
            start <= end <= self@.len(),
        ensures
            r@ == self@.subrange(start as int, end as int),
    {
        proof { use_type_invariant(self); }
        let mut v: Vec<u8> = Vec::new();
        let mut i: usize = start;
        while i < end
            invariant
                start <= i <= end <= self.nibbles@.len(),
                valid_nibbles(self.nibbles@),
                v@ =~= self.nibbles@.subrange(start as int, i as int),
            decreases end - i,
        {
            v.push(self.nibbles[i]);
            i = i + 1;
            assert(v@ =~= self.nibbles@.subrange(start as int, i as int));
        }
        Nibbles { nibbles: v }
    }

    /// The nibbles from index `start` to the end.
    pub fn slice_from(&self, start: usize) -> (r: Self)
        requires
            start <= self@.len(),
        ensures
            r@ == self@.subrange(start as int, self@.len() as int),
    {
        self.slice(start, self.len())
    }

    /// This path followed by `other`, as a new path.
    pub fn join(&self, other: &Nibbles) -> (r: Self)
        ensures
            r@ == self@ + other@,
    {
        let mut r = self.duplicate();
        r.extend(other);
        r
    }

    /// This path followed by one nibble, as a new path.
    pub fn join_nibble(&self, n: u8) -> (r: Self)
        requires
            n < 16,
        ensures
            r@ == self@.push(n),
    {
        let mut r = self.duplicate();
        r.push(n);
        r
    }

    /// Length of the longest common prefix with `other`.
    pub fn common_prefix_length(&self, other: &Nibbles) -> (r: usize)
        ensures
            r == common_prefix_len(self@, other@),
            r <= self@.len(),
            r <= other@.len(),
            self@.subrange(0, r as int) == other@.subrange(0, r as int),
            r < self@.len() && r < other@.len() ==> self@[r as int] != other@[r as int],
    {
        let mut i: usize = 0;
        assert(self@.subrange(0, self@.len() as int) =~= self@);
        assert(other@.subrange(0, other@.len() as int) =~= other@);
        while i < self.nibbles.len() && i < other.nibbles.len() && self.nibbles[i] == other.nibbles[i]
            invariant
                i <= self@.len(),
                i <= other@.len(),
                self@.subrange(0, i as int) == other@.subrange(0, i as int),
                common_prefix_len(self@, other@) == i + common_prefix_len(
                    self@.subrange(i as int, self@.len() as int),
                    other@.subrange(i as int, other@.len() as int),
                ),
            decreases self@.len() - i,
        {
            proof {
                let a = self@.subrange(i as int, self@.len() as int);
                let b = other@.subrange(i as int, other@.len() as int);
                assert(a.drop_first() =~= self@.subrange(i + 1, self@.len() as int));
                assert(b.drop_first() =~= other@.subrange(i + 1, other@.len() as int));
                assert(self@.subrange(0, i + 1) =~= self@.subrange(0, i as int).push(self@[i as int]));
                assert(other@.subrange(0, i + 1) =~= other@.subrange(0, i as int).push(other@[i as int]));
            }
            i = i + 1;
        }
        i
    }

    /// Whether this path equals `other`.
    pub fn same_as(&self, other: &Nibbles) -> (r: bool)
        ensures
            r == (self@ == other@),
    {
        if self.nibbles.len() != other.nibbles.len() {
            return false;
        }
        let mut i: usize = 0;
        while i < self.nibbles.len()
            invariant
                i <= self@.len(),
                self@.len() == other@.len(),
                self@.subrange(0, i as int) =~= other@.subrange(0, i as int),
            decreases self@.len() - i,
        {
            if self.nibbles[i] != other.nibbles[i] {
                return false;
            }
            assert(self@.subrange(0, i + 1) =~= self@.subrange(0, i as int).push(self@[i as int]));
            assert(other@.subrange(0, i + 1) =~= other@.subrange(0, i as int).push(other@[i as int]));
            i = i + 1;
        }
        assert(self@ =~= self@.subrange(0, i as int));
        assert(other@ =~= other@.subrange(0, i as int));
        true
    }

    /// Whether this path begins with `prefix`.
    pub fn starts_with(&self, prefix: &Nibbles) -> (r: bool)
        ensures
            r == (prefix@.len() <= self@.len() && self@.subrange(0, prefix@.len() as int)
                == prefix@),
    {
        if prefix.nibbles.len() > self.nibbles.len() {
            return false;
        }
        let mut i: usize = 0;
        while i < prefix.nibbles.len()
            invariant
                i <= prefix@.len() <= self@.len(),
                self@.subrange(0, i as int) =~= prefix@.subrange(0, i as int),
            decreases prefix@.len() - i,
        {
            if self.nibbles[i] != prefix.nibbles[i] {
                assert(self@.subrange(0, prefix@.len() as int)[i as int] != prefix@[i as int]);
                return false;
            }
            assert(self@.subrange(0, i + 1) =~= self@.subrange(0, i as int).push(self@[i as int]));
            assert(prefix@.subrange(0, i + 1) =~= prefix@.subrange(0, i as int).push(prefix@[i as int]));
            i = i + 1;
        }
        assert(prefix@ =~= prefix@.subrange(0, i as int));
        true
    }
}

} // verus!
