//! Small ordered sets of numeric codes.

use vstd::prelude::*;

verus! {

/// The codes come in strictly ascending order.
pub open spec fn ascending(codes: Seq<u32>) -> bool {
    forall|i: int, j: int|
        0 <= i < j < codes.len() ==> (#[trigger] codes[i]) < (#[trigger] codes[j])
}

/// An ordered set of codes; its view lists them in ascending order.
#[derive(Debug, PartialEq, Eq)]
pub struct CodeSet {
    pub codes: Vec<u32>,
}

impl View for CodeSet {
    type V = Seq<u32>;

    open spec fn view(&self) -> Seq<u32> {
        self.codes@
    }
}

impl Clone for CodeSet {
    fn clone(&self) -> (r: Self)
        ensures
            r@ == self@,
    {
        let mut codes: Vec<u32> = Vec::new();
        for i in 0..self.codes.len()
            invariant
                codes@ == self@.take(i as int),
        {
            codes.push(self.codes[i]);
        }
        CodeSet { codes }
    }
}

/// Where `code` stands in an ascending list, or would stand.
pub open spec fn rank(codes: Seq<u32>, code: u32) -> int
    decreases codes.len(),
{
    if codes.len() == 0 || codes.last() < code {
        codes.len() as int
    } else {
        rank(codes.drop_last(), code)
    }
}

/// An ascending list with `code` among it.
pub open spec fn with_code(codes: Seq<u32>, code: u32) -> Seq<u32> {
    if codes.contains(code) {
        codes
    } else {
        codes.insert(rank(codes, code), code)
    }
}

/// An ascending list without `code`.
pub open spec fn without_code(codes: Seq<u32>, code: u32) -> Seq<u32> {
    if codes.contains(code) {
        codes.remove(rank(codes, code))
    } else {
        codes
    }
}

pub proof fn lemma_rank(codes: Seq<u32>, code: u32)
    requires
        ascending(codes),
    ensures
        0 <= rank(codes, code) <= codes.len(),
        forall|i: int| 0 <= i < rank(codes, code) ==> (#[trigger] codes[i]) < code,
        forall|i: int| rank(codes, code) <= i < codes.len() ==> (#[trigger] codes[i]) >= code,
        codes.contains(code) ==> rank(codes, code) < codes.len() && codes[rank(codes, code)] == code,
        rank(codes, code) < codes.len() && codes[rank(codes, code)] == code ==> codes.contains(code),
    decreases codes.len(),
{
    if codes.len() == 0 {
    } else if codes.last() < code {
        assert forall|i: int| 0 <= i < codes.len() implies (#[trigger] codes[i]) < code by {
            assert(codes[i] <= codes[codes.len() - 1]);
        }
    } else {
        let front = codes.drop_last();
        assert(ascending(front)) by {
            assert forall|i: int, j: int| 0 <= i < j < front.len() implies (#[trigger] front[i]) < (
            #[trigger] front[j]) by {
                assert(codes[i] < codes[j]);
            }
        }
        lemma_rank(front, code);
        let r = rank(codes, code);
        assert forall|i: int| 0 <= i < r implies (#[trigger] codes[i]) < code by {
            assert(front[i] == codes[i]);
        }
        assert forall|i: int| r <= i < codes.len() implies (#[trigger] codes[i]) >= code by {
            if i < front.len() {
                assert(front[i] == codes[i]);
            }
        }
        if codes.contains(code) {
            let i = choose|i: int| 0 <= i < codes.len() && codes[i] == code;
            if i < front.len() {
                assert(front[i] == code);
                assert(front.contains(code));
                assert(front[r] == code);
                assert(codes[r] == code);
            } else {
                if r < front.len() {
                    assert(codes[r] < codes[codes.len() - 1]);
                    assert(front[r] >= code);
                }
            }
        }
    }
}

pub proof fn lemma_with_code(codes: Seq<u32>, code: u32)
    requires
        ascending(codes),
    ensures
        ascending(with_code(codes, code)),
        forall|c: u32| #[trigger] with_code(codes, code).contains(c) == (codes.contains(c) || c == code),
{
    lemma_rank(codes, code);
    if !codes.contains(code) {
        let r = rank(codes, code);
        let after = codes.insert(r, code);
        assert forall|i: int, j: int| 0 <= i < j < after.len() implies (#[trigger] after[i]) < (
        #[trigger] after[j]) by {
            let p = if i < r {
                i
            } else {
                i - 1
            };
            let q = if j < r {
                j
            } else {
                j - 1
            };
            if i != r && j != r {
                assert(codes[p] < codes[q]);
            } else if i == r {
                assert(codes[q] >= code);
                assert(codes[q] != code);
            } else {
                assert(codes[p] < code);
            }
        }
        assert forall|c: u32| #[trigger] after.contains(c) == (codes.contains(c) || c == code) by {
            if codes.contains(c) {
                let i = choose|i: int| 0 <= i < codes.len() && codes[i] == c;
                if i < r {
                    assert(after[i] == c);
                } else {
                    assert(after[i + 1] == c);
                }
            }
            if c == code {
                assert(after[r] == c);
            }
            if after.contains(c) {
                let i = choose|i: int| 0 <= i < after.len() && after[i] == c;
                if i < r {
                    assert(codes[i] == c);
                } else if i > r {
                    assert(codes[i - 1] == c);
                }
            }
        }
    }
}

pub proof fn lemma_without_code(codes: Seq<u32>, code: u32)
    requires
        ascending(codes),
    ensures
        ascending(without_code(codes, code)),
        forall|c: u32|
            #[trigger] without_code(codes, code).contains(c) == (codes.contains(c) && c != code),
{
    lemma_rank(codes, code);
    if codes.contains(code) {
        let r = rank(codes, code);
        let after = codes.remove(r);
        assert forall|i: int, j: int| 0 <= i < j < after.len() implies (#[trigger] after[i]) < (
        #[trigger] after[j]) by {
            let p = if i < r {
                i
            } else {
                i + 1
            };
            let q = if j < r {
                j
            } else {
                j + 1
            };
            assert(codes[p] < codes[q]);
        }
        assert forall|c: u32| #[trigger] after.contains(c) == (codes.contains(c) && c != code) by {
            if codes.contains(c) && c != code {
                let i = choose|i: int| 0 <= i < codes.len() && codes[i] == c;
                if i < r {
                    assert(after[i] == c);
                } else {
                    assert(after[i - 1] == c);
                }
            }
            if after.contains(c) {
                let i = choose|i: int| 0 <= i < after.len() && after[i] == c;
                if i < r {
                    assert(codes[i] == c);
                    assert(codes[i] < codes[r]);
                } else {
                    assert(codes[i + 1] == c);
                    assert(codes[r] < codes[i + 1]);
                }
            }
        }
    }
}

impl CodeSet {
    pub open spec fn wf(&self) -> bool {
        ascending(self@)
    }

    pub fn new() -> (r: Self)
        ensures
            r.wf(),
            r@ == Seq::<u32>::empty(),
    {
        CodeSet { codes: Vec::new() }
    }

    pub fn len(&self) -> (r: usize)
        ensures
            r == self@.len(),
    {
        self.codes.len()
    }

    pub fn is_empty(&self) -> (r: bool)
        ensures
            r == (self@.len() == 0),
    {
        self.codes.len() == 0
    }

    fn rank_of(&self, code: u32) -> (r: usize)
        requires
            self.wf(),
        ensures
            r == rank(self@, code),
            r <= self@.len(),
    {
        let mut at: usize = 0;
        proof {
            lemma_rank(self@, code);
        }
        while at < self.codes.len() && self.codes[at] < code
            invariant
                self.wf(),
                at <= rank(self@, code) <= self@.len(),
                forall|i: int| 0 <= i < rank(self@, code) ==> (#[trigger] self@[i]) < code,
                forall|i: int| rank(self@, code) <= i < self@.len() ==> (#[trigger] self@[i]) >= code,
            ensures
                at == rank(self@, code),
            decreases self.codes.len() - at,
        {
            assert(self@[at as int] < code);
            at = at + 1;
        }
        at
    }

    pub fn contains(&self, code: u32) -> (r: bool)
        requires
            self.wf(),
        ensures
            r == self@.contains(code),
    {
        let at: usize = self.rank_of(code);
        proof {
            lemma_rank(self@, code);
        }
        at < self.codes.len() && self.codes[at] == code
    }

    /// Adds a code; false when it was there.
    pub fn insert(&mut self, code: u32) -> (r: bool)
        requires
            old(self).wf(),
        ensures
            final(self).wf(),
            final(self)@ == with_code(old(self)@, code),
            r == !old(self)@.contains(code),
    {
        let at: usize = self.rank_of(code);
        proof {
            lemma_rank(self@, code);
            lemma_with_code(self@, code);
        }
        if at < self.codes.len() && self.codes[at] == code {
            return false;
        }
        self.codes.insert(at, code);
        true
    }

    /// Takes a code out; false when it was not there.
    pub fn remove(&mut self, code: u32) -> (r: bool)
        requires
            old(self).wf(),
        ensures
            final(self).wf(),
            final(self)@ == without_code(old(self)@, code),
            r == old(self)@.contains(code),
    {
        let at: usize = self.rank_of(code);
        proof {
            lemma_rank(self@, code);
            lemma_without_code(self@, code);
        }
        if at < self.codes.len() && self.codes[at] == code {
            self.codes.remove(at);
            return true;
        }
        false
    }
}

} // verus!
