//! Places in the file system, and the names that receipts have there.

use super::records::TransferId;
use vstd::prelude::*;

verus! {

/// A place in the file system: the names on the way to it.
#[derive(Debug)]
pub struct Place {
    /// The way starts at the root of the file system.
    pub absolute: bool,
    pub names: Vec<String>,
}

#[verifier::ext_equal]
pub ghost struct PlaceView {
    pub absolute: bool,
    pub names: Seq<Seq<char>>,
}

/// Texts as characters.
pub open spec fn texts(names: Seq<String>) -> Seq<Seq<char>> {
    Seq::new(names.len(), |i: int| names[i]@)
}

impl View for Place {
    type V = PlaceView;

    open spec fn view(&self) -> PlaceView {
        PlaceView { absolute: self.absolute, names: texts(self.names@) }
    }
}

impl PlaceView {
    /// What lies at a place under a name.
    pub open spec fn join(self, name: Seq<char>) -> PlaceView {
        PlaceView { absolute: self.absolute, names: self.names.push(name) }
    }

    /// The place has a name, and so lies at another place.
    pub open spec fn named(self) -> bool {
        self.names.len() > 0
    }

    pub open spec fn parent(self) -> PlaceView {
        PlaceView { absolute: self.absolute, names: self.names.drop_last() }
    }

    pub open spec fn name(self) -> Seq<char> {
        self.names.last()
    }

    /// The place in words.
    pub open spec fn text(self) -> Seq<char> {
        if self.absolute {
            "/"@ + slashed(self.names)
        } else {
            slashed(self.names)
        }
    }
}

/// Names with slashes between them.
pub open spec fn slashed(names: Seq<Seq<char>>) -> Seq<char>
    decreases names.len(),
{
    if names.len() == 0 {
        Seq::empty()
    } else if names.len() == 1 {
        names[0]
    } else {
        slashed(names.drop_last()) + "/"@ + names.last()
    }
}

/// What lies under a name has that name and lies where it was put.
pub proof fn a_joined_place_can_be_taken_apart(place: PlaceView, name: Seq<char>)
    ensures
        place.join(name).named(),
        place.join(name).parent() == place,
        place.join(name).name() == name,
{
    assert(place.join(name).names.drop_last() =~= place.names);
}

pub fn clone_texts(names: &Vec<String>) -> (r: Vec<String>)
    ensures
        texts(r@) == texts(names@),
        r@.len() == names@.len(),
{
    let mut out: Vec<String> = Vec::new();
    for i in 0..names.len()
        invariant
            out@.len() == i,
            forall|k: int| 0 <= k < i ==> (#[trigger] out@[k])@ == names@[k]@,
    {
        out.push(names[i].clone());
    }
    assert(texts(out@) =~= texts(names@));
    out
}

impl Clone for Place {
    fn clone(&self) -> (r: Self)
        ensures
            r@ == self@,
    {
        Place { absolute: self.absolute, names: clone_texts(&self.names) }
    }
}

impl Place {
    pub fn same(&self, other: &Place) -> (r: bool)
        ensures
            r == (self@ == other@),
    {
        if self.absolute != other.absolute || self.names.len() != other.names.len() {
            proof {
                if self@ == other@ {
                    assert(self@.names.len() == other@.names.len());
                }
            }
            return false;
        }
        for i in 0..self.names.len()
            invariant
                self.names@.len() == other.names@.len(),
                forall|k: int| 0 <= k < i ==> (#[trigger] self.names@[k])@ == other.names@[k]@,
        {
            if self.names[i] != other.names[i] {
                assert(self@.names[i as int] != other@.names[i as int]);
                return false;
            }
        }
        assert(self@ =~= other@);
        true
    }

    pub fn join(&self, name: &str) -> (r: Place)
        ensures
            r@ == self@.join(name@),
    {
        let mut names = clone_texts(&self.names);
        names.push(name.to_owned());
        assert(texts(names@) =~= texts(self.names@).push(name@));
        Place { absolute: self.absolute, names }
    }

    /// The place in words.
    pub fn text(&self) -> (r: String)
        ensures
            r@ == self@.text(),
    {
        let mut out: String = if self.absolute {
            "/".to_owned()
        } else {
            String::new()
        };
        let ghost start = out@;
        let ghost all = self@.names;
        assert(all.take(0) =~= Seq::empty());
        assert(start + slashed(all.take(0)) =~= start);
        for i in 0..self.names.len()
            invariant
                all == self@.names,
                all.len() == self.names@.len(),
                out@ == start + slashed(all.take(i as int)),
        {
            assert(all.take(i + 1).drop_last() =~= all.take(i as int));
            assert(all.take(i + 1).last() == self.names@[i as int]@);
            let ghost before = slashed(all.take(i as int));
            if i > 0 {
                out.append("/");
            } else {
                assert(before =~= Seq::empty());
            }
            out.append(self.names[i].as_str());
            assert(out@ =~= start + slashed(all.take(i + 1)));
        }
        assert(all.take(all.len() as int) =~= all);
        assert(Seq::<char>::empty() + slashed(all) =~= slashed(all));
        out
    }

    /// Whether both lie at the same place, directly.
    pub fn beside(&self, other: &Place) -> (r: bool)
        ensures
            r == (self@.named() && other@.named() && self@.parent() == other@.parent()),
    {
        if self.names.len() == 0 || other.names.len() == 0 || self.absolute != other.absolute
            || self.names.len() != other.names.len() {
            proof {
                if self@.named() && other@.named() && self@.parent() == other@.parent() {
                    assert(self@.parent().names.len() == other@.parent().names.len());
                }
            }
            return false;
        }
        for i in 0..self.names.len() - 1
            invariant
                self.names@.len() == other.names@.len(),
                self.names@.len() > 0,
                forall|k: int| 0 <= k < i ==> (#[trigger] self.names@[k])@ == other.names@[k]@,
        {
            if self.names[i] != other.names[i] {
                assert(self@.parent().names[i as int] != other@.parent().names[i as int]);
                return false;
            }
        }
        assert(self@.parent() =~= other@.parent());
        true
    }

    /// Whether it has this name.
    pub fn is_named(&self, name: &str) -> (r: bool)
        ensures
            r == (self@.named() && self@.name() == name@),
    {
        let count: usize = self.names.len();
        if count == 0 {
            return false;
        }
        let last = self.names[count - 1].as_str();
        assert(last@.skip(0) =~= last@);
        ends_from(last, 0, name)
    }
}

/// The character of a hexadecimal digit.
pub open spec fn hex_digit(digit: nat) -> char {
    if digit < 10 {
        (48 + digit) as u8 as char
    } else {
        (87 + digit) as u8 as char
    }
}

/// A number in `n` hexadecimal digits, the highest first.
pub open spec fn hex(value: nat, n: nat) -> Seq<char>
    decreases n,
{
    if n == 0 {
        Seq::empty()
    } else {
        hex(value / 16, (n - 1) as nat).push(hex_digit(value % 16))
    }
}

/// What a character is worth as a hexadecimal digit.
pub open spec fn digit_of(c: char) -> Option<nat> {
    if '0' <= c <= '9' {
        Some((c as nat - 48) as nat)
    } else if 'a' <= c <= 'f' {
        Some((c as nat - 87) as nat)
    } else if 'A' <= c <= 'F' {
        Some((c as nat - 55) as nat)
    } else {
        None
    }
}

pub open spec fn are_digits(text: Seq<char>) -> bool {
    forall|i: int| 0 <= i < text.len() ==> digit_of(#[trigger] text[i]) is Some
}

/// The number that hexadecimal digits spell.
pub open spec fn hex_value(text: Seq<char>) -> nat
    decreases text.len(),
{
    if text.len() == 0 {
        0
    } else {
        hex_value(text.drop_last()) * 16 + digit_of(text.last())->0
    }
}

/// Numbers that fit `n` hexadecimal digits.
pub open spec fn hex_range(n: nat) -> nat
    decreases n,
{
    if n == 0 {
        1
    } else {
        16 * hex_range((n - 1) as nat)
    }
}

proof fn lemma_hex_value(text: Seq<char>)
    requires
        are_digits(text),
    ensures
        hex_value(text) < hex_range(text.len()),
    decreases text.len(),
{
    if text.len() > 0 {
        assert(digit_of(text[text.len() - 1]) is Some);
        lemma_hex_value(text.drop_last());
    }
}

proof fn lemma_hex_range_grows(a: nat, b: nat)
    requires
        a <= b,
    ensures
        0 < hex_range(a) <= hex_range(b),
    decreases b,
{
    if a < b {
        lemma_hex_range_grows(a, (b - 1) as nat);
    } else if a > 0 {
        lemma_hex_range_grows((a - 1) as nat, (a - 1) as nat);
    }
}

proof fn lemma_hex_range_32()
    ensures
        hex_range(32) == 0x1_0000_0000_0000_0000_0000_0000_0000_0000,
{
    reveal_with_fuel(hex_range, 33);
}

/// What is written in hexadecimal digits is read back.
pub proof fn hex_is_read_back(value: nat, n: nat)
    requires
        value < hex_range(n),
    ensures
        hex(value, n).len() == n,
        are_digits(hex(value, n)),
        hex_value(hex(value, n)) == value,
    decreases n,
{
    if n > 0 {
        let front = hex(value / 16, (n - 1) as nat);
        hex_is_read_back(value / 16, (n - 1) as nat);
        let text = hex(value, n);
        assert(text.drop_last() =~= front);
        assert forall|i: int| 0 <= i < text.len() implies digit_of(#[trigger] text[i]) is Some by {
            if i < n - 1 {
                assert(text[i] == front[i]);
            }
        }
    }
}

fn digit_text(digit: u128) -> (r: &'static str)
    requires
        digit < 16,
    ensures
        r@ == seq![hex_digit(digit as nat)],
{
    proof {
        reveal_strlit("0");
        reveal_strlit("1");
        reveal_strlit("2");
        reveal_strlit("3");
        reveal_strlit("4");
        reveal_strlit("5");
        reveal_strlit("6");
        reveal_strlit("7");
        reveal_strlit("8");
        reveal_strlit("9");
        reveal_strlit("a");
        reveal_strlit("b");
        reveal_strlit("c");
        reveal_strlit("d");
        reveal_strlit("e");
        reveal_strlit("f");
    }
    let r: &'static str = match digit {
        0 => "0",
        1 => "1",
        2 => "2",
        3 => "3",
        4 => "4",
        5 => "5",
        6 => "6",
        7 => "7",
        8 => "8",
        9 => "9",
        10 => "a",
        11 => "b",
        12 => "c",
        13 => "d",
        14 => "e",
        _ => "f",
    };
    assert(r@ =~= seq![hex_digit(digit as nat)]);
    r
}

fn hex_text(value: u128, n: u32) -> (r: String)
    ensures
        r@ == hex(value as nat, n as nat),
    decreases n,
{
    if n == 0 {
        let out = String::new();
        assert(out@ =~= Seq::empty());
        out
    } else {
        let mut out = hex_text(value / 16, n - 1);
        out.append(digit_text(value % 16));
        assert(hex((value / 16) as nat, (n - 1) as nat) + seq![hex_digit((value % 16) as nat)]
            =~= hex((value / 16) as nat, (n - 1) as nat).push(hex_digit((value % 16) as nat)));
        out
    }
}

/// Sixteen bytes as text.
pub open spec fn id_text(id: u128) -> Seq<char> {
    hex(id as nat, 32)
}

pub fn text_of(id: u128) -> (r: String)
    ensures
        r@ == id_text(id),
{
    hex_text(id, 32)
}

fn text_of_parts(a: &str, id: u128, b: &str) -> (r: String)
    ensures
        r@ == a@ + id_text(id) + b@,
{
    let mut out = a.to_owned();
    let middle = text_of(id);
    out.append(middle.as_str());
    out.append(b);
    out
}

pub open spec fn staging_text(id: TransferId) -> Seq<char> {
    ".splice-"@ + id_text(id.0) + ".partial"@
}

/// Where files are while they come in.
pub fn staging_name(id: TransferId) -> (r: String)
    ensures
        r@ == staging_text(id),
{
    text_of_parts(".splice-", id.0, ".partial")
}

pub open spec fn holder_text(id: TransferId) -> Seq<char> {
    ".splice-"@ + id_text(id.0) + ".cleanup"@
}

/// Where things are while they are removed.
pub fn holder_name(id: TransferId) -> (r: String)
    ensures
        r@ == holder_text(id),
{
    text_of_parts(".splice-", id.0, ".cleanup")
}

pub open spec fn journal_text(id: TransferId) -> Seq<char> {
    id_text(id.0) + ".json"@
}

/// The file that remembers a transfer.
pub fn journal_name(id: TransferId) -> (r: String)
    ensures
        r@ == journal_text(id),
{
    let mut out = text_of(id.0);
    out.append(".json");
    out
}

pub open spec fn journal_place(base: PlaceView, id: TransferId) -> PlaceView {
    base.join("records"@).join(journal_text(id))
}

pub fn journal_path(base: &Place, id: TransferId) -> (r: Place)
    ensures
        r@ == journal_place(base@, id),
{
    let name = journal_name(id);
    base.join("records").join(name.as_str())
}

/// Where the files of a transfer are kept in the cache.
pub open spec fn receipt_place(base: PlaceView, id: TransferId) -> PlaceView {
    base.join("received"@).join(id_text(id.0))
}

pub fn receipt_path(base: &Place, id: TransferId) -> (r: Place)
    ensures
        r@ == receipt_place(base@, id),
{
    let name = text_of(id.0);
    base.join("received").join(name.as_str())
}

/// A text up to its first dot.
pub open spec fn stem(text: Seq<char>) -> Seq<char>
    decreases text.len(),
{
    if text.len() == 0 || text[0] == '.' {
        Seq::empty()
    } else {
        seq![text[0]] + stem(text.skip(1))
    }
}

proof fn lemma_stem(text: Seq<char>, n: int)
    requires
        0 <= n <= text.len(),
        forall|i: int| 0 <= i < n ==> (#[trigger] text[i]) != '.',
        n == text.len() || text[n] == '.',
    ensures
        stem(text) == text.take(n),
    decreases n,
{
    if n > 0 {
        let rest = text.skip(1);
        assert forall|i: int| 0 <= i < n - 1 implies (#[trigger] rest[i]) != '.' by {
            assert(rest[i] == text[i + 1]);
        }
        lemma_stem(rest, n - 1);
        assert(text.take(n) =~= seq![text[0]] + rest.take(n - 1));
    } else {
        assert(text.take(0) =~= Seq::empty());
    }
}

/// Whether a text is thirty-two hexadecimal digits.
pub open spec fn is_id(text: Seq<char>) -> bool {
    text.len() == 32 && are_digits(text)
}

fn digit(c: char) -> (r: Option<u128>)
    ensures
        match r {
            Some(d) => digit_of(c) == Some(d as nat) && d < 16,
            None => digit_of(c) is None,
        },
{
    if '0' <= c && c <= '9' {
        Some(c as u128 - 48)
    } else if 'a' <= c && c <= 'f' {
        Some(c as u128 - 87)
    } else if 'A' <= c && c <= 'F' {
        Some(c as u128 - 55)
    } else {
        None
    }
}

/// The number that the beginning of a text spells in thirty-two hexadecimal digits.
fn id_at_start(text: &str) -> (r: Option<u128>)
    requires
        text@.len() >= 32,
    ensures
        match r {
            Some(id) => is_id(text@.take(32)) && id == hex_value(text@.take(32)),
            None => !is_id(text@.take(32)),
        },
{
    let mut value: u128 = 0;
    let ghost all = text@.take(32);
    assert(all.take(0) =~= Seq::empty());
    for i in 0..32usize
        invariant
            text@.len() >= 32,
            all == text@.take(32),
            are_digits(all.take(i as int)),
            value == hex_value(all.take(i as int)),
    {
        let c = text.get_char(i);
        proof {
            assert(all[i as int] == c);
            assert(all.take(i + 1).drop_last() =~= all.take(i as int));
        }
        match digit(c) {
            Some(d) => {
                proof {
                    assert forall|k: int| 0 <= k < i + 1 implies digit_of(
                        #[trigger] all.take(i + 1)[k],
                    ) is Some by {
                        if k < i {
                            assert(all.take(i + 1)[k] == all.take(i as int)[k]);
                        }
                    }
                    lemma_hex_value(all.take(i + 1));
                    lemma_hex_range_grows((i + 1) as nat, 32);
                    lemma_hex_range_32();
                }
                value = value * 16 + d;
            },
            None => {
                assert(digit_of(all[i as int]) is None);
                return None;
            },
        }
    }
    assert(all.take(32) =~= all);
    Some(value)
}

/// Whether a text is thirty-two hexadecimal digits.
pub fn is_id_text(text: &str) -> (r: bool)
    ensures
        r == is_id(text@),
{
    if text.unicode_len() != 32 {
        return false;
    }
    assert(text@.take(32) =~= text@);
    id_at_start(text).is_some()
}

/// Which transfer a file belongs to, by its name.
pub fn receipt_id(name: &str) -> (r: Option<TransferId>)
    ensures
        match r {
            Some(id) => is_id(stem(name@)) && id.0 == hex_value(stem(name@)),
            None => !is_id(stem(name@)),
        },
{
    let length: usize = name.unicode_len();
    let mut n: usize = 0;
    while n < length && name.get_char(n) != '.'
        invariant
            length == name@.len(),
            n <= length,
            forall|i: int| 0 <= i < n ==> (#[trigger] name@[i]) != '.',
        ensures
            length == name@.len(),
            n <= length,
            forall|i: int| 0 <= i < n ==> (#[trigger] name@[i]) != '.',
            n == length || name@[n as int] == '.',
        decreases length - n,
    {
        n = n + 1;
    }
    proof {
        lemma_stem(name@, n as int);
    }
    if n != 32 {
        return None;
    }
    match id_at_start(name) {
        Some(id) => Some(TransferId(id)),
        None => None,
    }
}

/// The file that remembers a transfer tells which one it is.
pub proof fn a_journal_names_its_transfer(id: TransferId)
    ensures
        is_id(stem(journal_text(id))),
        hex_value(stem(journal_text(id))) == id.0,
{
    reveal_strlit(".json");
    lemma_hex_range_32();
    hex_is_read_back(id.0 as nat, 32);
    let text = journal_text(id);
    let digits = id_text(id.0);
    assert forall|i: int| 0 <= i < 32 implies (#[trigger] text[i]) != '.' by {
        assert(text[i] == digits[i]);
        assert(digit_of(digits[i]) is Some);
    }
    assert(text[32] == '.');
    lemma_stem(text, 32);
    assert(text.take(32) =~= digits);
}

/// No two transfers share a name.
pub proof fn transfers_have_names_of_their_own(a: TransferId, b: TransferId)
    requires
        id_text(a.0) == id_text(b.0),
    ensures
        a == b,
{
    lemma_hex_range_32();
    hex_is_read_back(a.0 as nat, 32);
    hex_is_read_back(b.0 as nat, 32);
}

/// What kind of file a name among the records stands for.
#[derive(Clone, Copy, Debug, PartialEq, Eq, Structural)]
pub enum RecordKind {
    Journal,
    /// A journal that could not be read, put aside.
    Quarantined,
    Other,
}

/// Where the last dot of a text is, or -1.
pub open spec fn last_dot(text: Seq<char>) -> int
    decreases text.len(),
{
    if text.len() == 0 {
        -1
    } else if text.last() == '.' {
        text.len() - 1
    } else {
        last_dot(text.drop_last())
    }
}

/// What stands behind the last dot of a name, unless that is where the name starts.
pub open spec fn extension(name: Seq<char>) -> Option<Seq<char>> {
    if last_dot(name) > 0 {
        Some(name.skip(last_dot(name) + 1))
    } else {
        None
    }
}

pub open spec fn kind_of(name: Seq<char>) -> RecordKind {
    if extension(name) == Some("bad"@) {
        RecordKind::Quarantined
    } else if extension(name) == Some("json"@) {
        RecordKind::Journal
    } else {
        RecordKind::Other
    }
}

/// Whether a text goes on with another from some place to its end.
fn ends_from(text: &str, from: usize, end: &str) -> (r: bool)
    requires
        from <= text@.len(),
    ensures
        r == (text@.skip(from as int) == end@),
{
    let length: usize = text.unicode_len();
    let count: usize = end.unicode_len();
    if length - from != count {
        assert(text@.skip(from as int).len() != end@.len());
        return false;
    }
    for i in 0..count
        invariant
            length == text@.len(),
            count == end@.len(),
            from + count == length,
            forall|k: int| 0 <= k < i ==> (#[trigger] end@[k]) == text@[from + k],
    {
        if text.get_char(from + i) != end.get_char(i) {
            assert(text@.skip(from as int)[i as int] != end@[i as int]);
            return false;
        }
    }
    assert(text@.skip(from as int) =~= end@);
    true
}

pub fn record_kind(name: &str) -> (r: RecordKind)
    ensures
        r == kind_of(name@),
{
    let length: usize = name.unicode_len();
    let mut n: usize = length;
    assert(name@.take(length as int) =~= name@);
    while n > 0 && name.get_char(n - 1) != '.'
        invariant
            length == name@.len(),
            n <= length,
            last_dot(name@) == last_dot(name@.take(n as int)),
        ensures
            n <= length,
            last_dot(name@) == n - 1,
        decreases n,
    {
        assert(name@.take(n as int).drop_last() =~= name@.take(n - 1));
        n = n - 1;
    }
    if n <= 1 {
        return RecordKind::Other;
    }
    if ends_from(name, n, "bad") {
        RecordKind::Quarantined
    } else if ends_from(name, n, "json") {
        RecordKind::Journal
    } else {
        RecordKind::Other
    }
}

} // verus!
