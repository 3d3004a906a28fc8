//! Machine identities and the stamps they put on shared state.

use vstd::prelude::*;
use vstd::utf8::{encode_utf8, encode_utf8_decode_utf8};

verus! {

/// A machine's stable identity.
#[derive(Debug, PartialEq, Eq, PartialOrd, Ord, Hash)]
pub struct MachineId(pub String);

impl View for MachineId {
    type V = Seq<char>;

    open spec fn view(&self) -> Seq<char> {
        self.0@
    }
}

impl Clone for MachineId {
    fn clone(&self) -> (r: Self)
        ensures
            r == *self,
    {
        MachineId(self.0.clone())
    }
}

impl MachineId {
    pub fn same(&self, other: &MachineId) -> (r: bool)
        ensures
            r == (self@ == other@),
    {
        self.0 == other.0
    }
}

/// Bytes that come before others in the order of dictionaries.
pub open spec fn bytes_before(a: Seq<u8>, b: Seq<u8>) -> bool
    decreases a.len(),
{
    if b.len() == 0 {
        false
    } else if a.len() == 0 {
        true
    } else if a[0] == b[0] {
        bytes_before(a.skip(1), b.skip(1))
    } else {
        a[0] < b[0]
    }
}

/// A text that comes before another, byte by byte.
pub open spec fn text_before(a: Seq<char>, b: Seq<char>) -> bool {
    bytes_before(encode_utf8(a), encode_utf8(b))
}

pub fn text_is_before(a: &str, b: &str) -> (r: bool)
    ensures
        r == text_before(a@, b@),
{
    let left = a.as_bytes();
    let right = b.as_bytes();
    let mut i: usize = 0;
    assert(left@.skip(0) =~= left@ && right@.skip(0) =~= right@);
    while i < left.len() && i < right.len() && left[i] == right[i]
        invariant
            i <= left@.len(),
            i <= right@.len(),
            bytes_before(left@, right@) == bytes_before(left@.skip(i as int), right@.skip(i as int)),
        ensures
            i <= left@.len(),
            i <= right@.len(),
            bytes_before(left@, right@) == bytes_before(left@.skip(i as int), right@.skip(i as int)),
            i == left@.len() || i == right@.len() || left@[i as int] != right@[i as int],
        decreases left@.len() - i,
    {
        assert(left@.skip(i as int).skip(1) =~= left@.skip(i + 1));
        assert(right@.skip(i as int).skip(1) =~= right@.skip(i + 1));
        i = i + 1;
    }
    if i == right.len() {
        false
    } else if i == left.len() {
        true
    } else {
        left[i] < right[i]
    }
}

impl MachineId {
    /// Whether this identity comes before another.
    pub fn before(&self, other: &MachineId) -> (r: bool)
        ensures
            r == text_before(self@, other@),
    {
        text_is_before(self.0.as_str(), other.0.as_str())
    }
}

/// Who wrote a shared value, and when in the order of writes.
#[derive(Debug)]
pub struct Stamp {
    pub lamport: u64,
    pub writer: MachineId,
}

impl Clone for Stamp {
    fn clone(&self) -> (r: Self)
        ensures
            r == *self,
    {
        Stamp { lamport: self.lamport, writer: self.writer.clone() }
    }
}

/// A later write; of writes at the same time, the one of the later machine.
pub open spec fn supersedes(a: Stamp, b: Stamp) -> bool {
    a.lamport > b.lamport || (a.lamport == b.lamport && text_before(b.writer@, a.writer@))
}

impl Stamp {
    pub fn after(&self, other: &Stamp) -> (r: bool)
        ensures
            r == supersedes(*self, *other),
    {
        self.lamport > other.lamport || (self.lamport == other.lamport && other.writer.before(
            &self.writer,
        ))
    }

    pub fn same(&self, other: &Stamp) -> (r: bool)
        ensures
            r == (self.lamport == other.lamport && self.writer@ == other.writer@),
    {
        self.lamport == other.lamport && self.writer.same(&other.writer)
    }
}

proof fn lemma_bytes_ordered(a: Seq<u8>, b: Seq<u8>, c: Seq<u8>)
    ensures
        !bytes_before(a, a),
        bytes_before(a, b) ==> !bytes_before(b, a),
        bytes_before(a, b) || bytes_before(b, a) || a == b,
        bytes_before(a, b) && bytes_before(b, c) ==> bytes_before(a, c),
    decreases a.len() + b.len() + c.len(),
{
    if a.len() > 0 {
        if b.len() > 0 && c.len() > 0 {
            lemma_bytes_ordered(a.skip(1), b.skip(1), c.skip(1));
            if a[0] == b[0] && a.skip(1) == b.skip(1) {
                assert(a =~= b) by {
                    assert forall|i: int| 0 <= i < a.len() implies a[i] == b[i] by {
                        if i > 0 {
                            assert(a[i] == a.skip(1)[i - 1]);
                            assert(b[i] == b.skip(1)[i - 1]);
                        }
                    }
                    assert(a.len() == a.skip(1).len() + 1 && b.len() == b.skip(1).len() + 1);
                }
            }
        } else if b.len() > 0 {
            lemma_bytes_ordered(a.skip(1), b.skip(1), c);
            if a[0] == b[0] && a.skip(1) == b.skip(1) {
                assert(a =~= b) by {
                    assert forall|i: int| 0 <= i < a.len() implies a[i] == b[i] by {
                        if i > 0 {
                            assert(a[i] == a.skip(1)[i - 1]);
                            assert(b[i] == b.skip(1)[i - 1]);
                        }
                    }
                    assert(a.len() == a.skip(1).len() + 1 && b.len() == b.skip(1).len() + 1);
                }
            }
        } else {
            lemma_bytes_ordered(a.skip(1), b, c);
        }
    } else {
        assert(b.len() == 0 ==> a =~= b);
        if b.len() > 0 {
            reveal_with_fuel(bytes_before, 2);
        }
    }
}

/// Texts stand in one order: of two different ones exactly one comes first, and what comes
/// before comes before what follows.
pub proof fn texts_stand_in_one_order(a: Seq<char>, b: Seq<char>, c: Seq<char>)
    ensures
        !text_before(a, a),
        text_before(a, b) ==> !text_before(b, a),
        text_before(a, b) || text_before(b, a) || a == b,
        text_before(a, b) && text_before(b, c) ==> text_before(a, c),
{
    lemma_bytes_ordered(encode_utf8(a), encode_utf8(b), encode_utf8(c));
    encode_utf8_decode_utf8(a);
    encode_utf8_decode_utf8(b);
}

/// Of two different stamps exactly one supersedes the other, and the order is transitive:
/// machines that see the same stamps agree on the latest.
pub proof fn stamps_stand_in_one_order(a: Stamp, b: Stamp, c: Stamp)
    ensures
        !supersedes(a, a),
        supersedes(a, b) ==> !supersedes(b, a),
        supersedes(a, b) || supersedes(b, a) || (a.lamport == b.lamport && a.writer@ == b.writer@),
        supersedes(a, b) && supersedes(b, c) ==> supersedes(a, c),
{
    texts_stand_in_one_order(a.writer@, b.writer@, c.writer@);
    texts_stand_in_one_order(b.writer@, a.writer@, c.writer@);
    texts_stand_in_one_order(c.writer@, b.writer@, a.writer@);
}

} // verus!
