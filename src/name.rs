//! Hierarchical display names.
use crate::cbor::{head, push_bytes, push_head, push_text_string, text_string};
use vstd::prelude::*;
use vstd::string::{StringExecFns, StringSliceAdditionalSpecFns};
use vstd::utf8::encode_utf8;

verus! {

/// One part of a name: a text segment or a natural number.
#[derive(Clone, Debug, PartialEq, Eq, PartialOrd, Ord)]
pub enum NamePart {
    Str(String),
    Num(u64),
}

/// A name: an ordered sequence of parts. `system` marks names that a
/// [`NameGenerator`] made. Names order lexicographically by their parts.
#[derive(Clone, Debug, PartialEq, Eq, PartialOrd, Ord)]
pub struct Name {
    pub parts: Vec<NamePart>,
    pub system: bool,
}

/// What a name part stands for.
pub enum PartModel {
    Str(Seq<char>),
    Num(nat),
}

/// What a name stands for.
pub struct NameModel {
    pub system: bool,
    pub parts: Seq<PartModel>,
}

impl View for NamePart {
    type V = PartModel;

    open spec fn view(&self) -> PartModel {
        match self {
            NamePart::Str(s) => PartModel::Str(s@),
            NamePart::Num(n) => PartModel::Num(*n as nat),
        }
    }
}

/// The models of a sequence of parts.
pub open spec fn view_parts(ps: Seq<NamePart>) -> Seq<PartModel> {
    ps.map_values(|p: NamePart| p@)
}

/// Text parts holding the given strings, in order.
pub open spec fn text_parts(s: Seq<&str>) -> Seq<PartModel> {
    s.map_values(|t: &str| PartModel::Str(t@))
}

impl View for Name {
    type V = NameModel;

    open spec fn view(&self) -> NameModel {
        NameModel { system: self.system, parts: view_parts(self.parts@) }
    }
}

/// The decimal digit `d` (below ten) as a character.
pub open spec fn digit_char(d: nat) -> char {
    ((48 + d) as u8) as char
}

/// The decimal form of `n`, without leading zeros.
pub open spec fn decimal(n: nat) -> Seq<char>
    decreases n,
{
    if n < 10 {
        seq![digit_char(n)]
    } else {
        decimal(n / 10).push(digit_char(n % 10))
    }
}

/// The printed form of one part.
pub open spec fn part_text(p: PartModel) -> Seq<char> {
    match p {
        PartModel::Str(s) => s,
        PartModel::Num(n) => decimal(n),
    }
}

/// The printed form of a sequence of parts: each part preceded by a `.`.
pub open spec fn print_parts(ps: Seq<PartModel>) -> Seq<char>
    decreases ps.len(),
{
    if ps.len() == 0 {
        Seq::empty()
    } else {
        print_parts(ps.drop_last()) + seq!['.'] + part_text(ps.last())
    }
}

/// Relies on `String::push`, which appends one character.
#[verifier::external_body]
fn push_char(s: &mut String, c: char)
    ensures
        final(s)@ == old(s)@.push(c),
{
    s.push(c)
}

/// Appends the decimal form of `n`.
fn push_decimal(s: &mut String, n: u64)
    ensures
        final(s)@ == old(s)@ + decimal(n as nat),
    decreases n,
{
    if n >= 10 {
        push_decimal(s, n / 10);
    }
    let d: u8 = (n % 10) as u8;
    push_char(s, (48 + d) as char);
    assert(final(s)@ == old(s)@ + decimal(n as nat));
}

/// The name that a generator with prefix `prefix` gives for counter `i`.
pub open spec fn generated(prefix: NameModel, i: nat) -> NameModel {
    NameModel { system: true, parts: prefix.parts.push(PartModel::Num(i)) }
}

/// The canonical bytes of a name part: a one-entry map from the variant's
/// name to its field.
pub open spec fn part_bytes(p: PartModel) -> Seq<u8> {
    match p {
        PartModel::Str(s) => seq![0xa1u8, 0x63, 0x53, 0x74, 0x72] + text_string(encode_utf8(s)),
        PartModel::Num(n) => seq![0xa1u8, 0x63, 0x4e, 0x75, 0x6d] + head(0, n),
    }
}

/// The canonical bytes of a sequence of parts, one after the other.
pub open spec fn parts_bytes(ps: Seq<PartModel>) -> Seq<u8>
    decreases ps.len(),
{
    if ps.len() == 0 {
        Seq::empty()
    } else {
        parts_bytes(ps.drop_last()) + part_bytes(ps.last())
    }
}

/// The canonical bytes of a name: a map with the keys `parts` (an array of
/// the parts) and `system` (a boolean), in that order.
pub open spec fn name_bytes(n: NameModel) -> Seq<u8> {
    seq![0xa2u8, 0x65, 0x70, 0x61, 0x72, 0x74, 0x73] + head(4, n.parts.len()) + parts_bytes(n.parts)
        + seq![0x66u8, 0x73, 0x79, 0x73, 0x74, 0x65, 0x6d] + seq![
        if n.system {
            0xf5u8
        } else {
            0xf4u8
        },
    ]
}

impl NamePart {
    /// A part with the same contents.
    pub fn duplicate(&self) -> (r: NamePart)
        ensures
            r@ == self@,
    {
        match self {
            NamePart::Str(s) => NamePart::Str(s.clone()),
            NamePart::Num(n) => NamePart::Num(*n),
        }
    }

    /// Whether the two parts have the same contents.
    pub fn same(&self, other: &NamePart) -> (r: bool)
        ensures
            r == (self@ == other@),
    {
        match (self, other) {
            (NamePart::Str(a), NamePart::Str(b)) => a.eq(b),
            (NamePart::Num(a), NamePart::Num(b)) => *a == *b,
            _ => false,
        }
    }

    /// Appends the canonical bytes of this part.
    pub fn encode_into(&self, buf: &mut Vec<u8>)
        ensures
            final(buf)@ == old(buf)@ + part_bytes(self@),
    {
        match self {
            NamePart::Str(s) => {
                let key: [u8; 5] = [0xa1, 0x63, 0x53, 0x74, 0x72];
                push_bytes(buf, &key);
                push_text_string(buf, s.as_str());
            },
            NamePart::Num(n) => {
                let key: [u8; 5] = [0xa1, 0x63, 0x4e, 0x75, 0x6d];
                push_bytes(buf, &key);
                push_head(buf, 0, *n);
            },
        }
        assert(final(buf)@ == old(buf)@ + part_bytes(self@));
    }
}

impl Name {
    /// The name with no parts.
    pub fn empty() -> (r: Name)
        ensures
            r@.system == false,
            r@.parts == Seq::<PartModel>::empty(),
    {
        Name { system: false, parts: Vec::new() }
    }

    /// A name made of the given text parts, in order.
    pub fn simple(s: &[&str]) -> (r: Name)
        ensures
            r@.system == false,
            r@.parts == text_parts(s@),
    {
        let mut parts: Vec<NamePart> = Vec::new();
        let mut i: usize = 0;
        while i < s.len()
            invariant
                i <= s@.len(),
                parts@.len() == i,
                view_parts(parts@) == text_parts(s@.subrange(0, i as int)),
            decreases s@.len() - i,
        {
            let ghost prev = parts@;
            parts.push(NamePart::Str(s[i].to_owned()));
            i += 1;
            assert forall|j: int| 0 <= j < i implies #[trigger] view_parts(parts@)[j]
                == text_parts(s@.subrange(0, i as int))[j] by {
                if j < i - 1 {
                    assert(view_parts(prev)[j] == text_parts(s@.subrange(0, i - 1))[j]);
                }
            }
            assert(view_parts(parts@) =~= text_parts(s@.subrange(0, i as int)));
        }
        assert(s@.subrange(0, s@.len() as int) == s@);
        Name { system: false, parts }
    }

    /// The printed form: each part preceded by a `.`, numbers in decimal; the
    /// empty name prints as the empty string.
    pub fn print(&self) -> (r: String)
        ensures
            r@ == print_parts(self@.parts),
    {
        let mut res = String::new();
        let mut i: usize = 0;
        while i < self.parts.len()
            invariant
                i <= self.parts@.len(),
                res@ == print_parts(self@.parts.subrange(0, i as int)),
            decreases self.parts@.len() - i,
        {
            push_char(&mut res, '.');
            match &self.parts[i] {
                NamePart::Str(t) => res.append(t.as_str()),
                NamePart::Num(n) => push_decimal(&mut res, *n),
            }
            i += 1;
            let ghost ps = self@.parts.subrange(0, i as int);
            assert(ps.drop_last() =~= self@.parts.subrange(0, i - 1));
        }
        assert(self@.parts.subrange(0, self.parts@.len() as int) =~= self@.parts);
        res
    }

    /// A name with the same contents.
    pub fn duplicate(&self) -> (r: Name)
        ensures
            r@ == self@,
    {
        let mut parts: Vec<NamePart> = Vec::new();
        let mut i: usize = 0;
        while i < self.parts.len()
            invariant
                i <= self.parts@.len(),
                parts@.len() == i,
                view_parts(parts@) == self@.parts.subrange(0, i as int),
            decreases self.parts@.len() - i,
        {
            let ghost prev = parts@;
            parts.push(self.parts[i].duplicate());
            i += 1;
            assert forall|j: int| 0 <= j < i implies #[trigger] view_parts(parts@)[j]
                == self@.parts.subrange(0, i as int)[j] by {
                if j < i - 1 {
                    assert(view_parts(prev)[j] == self@.parts.subrange(
                        0,
                        i - 1,
                    )[j]);
                }
            }
            assert(view_parts(parts@) =~= self@.parts.subrange(0, i as int));
        }
        assert(self@.parts.subrange(0, self.parts@.len() as int) =~= self@.parts);
        Name { system: self.system, parts }
    }

    /// Whether the two names have the same contents.
    pub fn same(&self, other: &Name) -> (r: bool)
        ensures
            r == (self@ == other@),
    {
        if self.system != other.system || self.parts.len() != other.parts.len() {
            proof {
                if self@ == other@ {
                    assert(self@.parts.len() == other@.parts.len());
                }
            }
            return false;
        }
        let mut i: usize = 0;
        while i < self.parts.len()
            invariant
                i <= self.parts@.len(),
                self.parts@.len() == other.parts@.len(),
                self.system == other.system,
                forall|j: int| 0 <= j < i ==> self@.parts[j] == other@.parts[j],
            decreases self.parts@.len() - i,
        {
            if !self.parts[i].same(&other.parts[i]) {
                assert(self@.parts[i as int] != other@.parts[i as int]);
                return false;
            }
            i += 1;
        }
        assert(self@.parts =~= other@.parts);
        true
    }

    /// Appends the canonical bytes of this name.
    pub fn encode_into(&self, buf: &mut Vec<u8>)
        ensures
            final(buf)@ == old(buf)@ + name_bytes(self@),
    {
        let ghost start = buf@;
        let key: [u8; 7] = [0xa2, 0x65, 0x70, 0x61, 0x72, 0x74, 0x73];
        push_bytes(buf, &key);
        push_head(buf, 4, self.parts.len() as u64);
        let ghost mid = buf@;
        let mut i: usize = 0;
        while i < self.parts.len()
            invariant
                i <= self.parts@.len(),
                buf@ == mid + parts_bytes(self@.parts.subrange(0, i as int)),
            decreases self.parts@.len() - i,
        {
            self.parts[i].encode_into(buf);
            i += 1;
            let ghost ps = self@.parts.subrange(0, i as int);
            assert(ps.drop_last() =~= self@.parts.subrange(0, i - 1));
        }
        assert(self@.parts.subrange(0, self.parts@.len() as int) =~= self@.parts);
        let key: [u8; 7] = [0x66, 0x73, 0x79, 0x73, 0x74, 0x65, 0x6d];
        push_bytes(buf, &key);
        buf.push(if self.system { 0xf5 } else { 0xf4 });
        assert(final(buf)@ =~= start + name_bytes(self@));
    }
}

/// Makes distinct names under a fixed prefix: the `i`-th name is the prefix
/// followed by the number `i`.
pub struct NameGenerator {
    prefix: Name,
    next_index: u32,
}

impl NameGenerator {
    /// The prefix under which names are made.
    pub closed spec fn prefix(&self) -> NameModel {
        self.prefix@
    }

    /// The counter that the next name will carry.
    pub closed spec fn next_index(&self) -> nat {
        self.next_index as nat
    }

    /// A generator whose first name carries the number 0.
    pub fn new(prefix: Name) -> (r: NameGenerator)
        ensures
            r.prefix() == prefix@,
            r.next_index() == 0,
    {
        NameGenerator { prefix, next_index: 0 }
    }

    /// The next name, `prefix ++ [Num(counter)]`, marked as a system name; the
    /// counter then advances. `None`, with nothing changed, once the counter
    /// has reached `u32::MAX`.
    pub fn next_name(&mut self) -> (r: Option<Name>)
        ensures
            final(self).prefix() == old(self).prefix(),
            old(self).next_index() < u32::MAX ==> r is Some && r->Some_0@ == generated(
                old(self).prefix(),
                old(self).next_index(),
            ) && final(self).next_index() == old(self).next_index() + 1,
            old(self).next_index() >= u32::MAX ==> r is None && final(self).next_index()
                == old(self).next_index(),
    {
        if self.next_index == u32::MAX {
            return None;
        }
        let mut name = self.prefix.duplicate();
        name.parts.push(NamePart::Num(self.next_index as u64));
        name.system = true;
        self.next_index = self.next_index + 1;
        assert(name@.parts =~= generated(old(self).prefix(), old(self).next_index()).parts);
        Some(name)
    }
}

/// Names that one generator makes for different counters differ: a generator,
/// whose counter only ever advances, never makes the same name twice.
pub proof fn lemma_generated_distinct(prefix: NameModel, i: nat, j: nat)
    requires
        i != j,
    ensures
        generated(prefix, i) != generated(prefix, j),
{
    let a = generated(prefix, i).parts;
    let b = generated(prefix, j).parts;
    assert(a[a.len() - 1] == PartModel::Num(i));
    assert(b[b.len() - 1] == PartModel::Num(j));
}

} // verus!
