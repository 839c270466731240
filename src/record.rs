use vstd::prelude::*;
use vstd::string::*;

use crate::bytes::{append_bytes, be16, push_be16};
use crate::error::DnsError;
use crate::types::{RRClass, RRType};

verus! {

/// Resource-record data: a type, a class and an opaque data blob.
#[derive(Clone, Debug, PartialEq, Eq)]
pub struct Record {
    rrtype: RRType,
    rrclass: RRClass,
    data: Vec<u8>,
}

/// What a [`Record`] is.
pub struct RecordView {
    pub rrtype: RRType,
    pub rrclass: RRClass,
    pub data: Seq<u8>,
}

impl View for Record {
    type V = RecordView;

    closed spec fn view(&self) -> RecordView {
        RecordView { rrtype: self.rrtype, rrclass: self.rrclass, data: self.data@ }
    }
}

/// The data length as the 16-bit field that carries it.
pub open spec fn data_len_field(data: Seq<u8>) -> u16 {
    (data.len() % 0x1_0000) as u16
}

/// The wire form of a record: type, class, data length and data.
pub open spec fn encode_record(r: RecordView) -> Seq<u8> {
    be16(r.rrtype.spec_code()) + be16(r.rrclass.spec_code()) + be16(data_len_field(r.data))
        + r.data
}

pub open spec fn is_digit(c: char) -> bool {
    '0' <= c <= '9'
}

/// The value of a sequence of decimal digits.
pub open spec fn digits_value(s: Seq<char>) -> int
    decreases s.len(),
{
    if s.len() == 0 {
        0
    } else {
        digits_value(s.drop_last()) * 10 + (s.last() as int - '0' as int)
    }
}

/// The digits of an unsigned decimal number: an optional `+` sign removed.
pub open spec fn unsigned_digits(s: Seq<char>) -> Seq<char> {
    if s.len() > 0 && s[0] == '+' {
        s.skip(1)
    } else {
        s
    }
}

/// The byte that text reads as in decimal, as `u8`'s `FromStr` reads it: an
/// optional `+`, then one or more digits, with a value of at most 255.
pub open spec fn parse_octet(s: Seq<char>) -> Option<u8> {
    let d = unsigned_digits(s);
    if d.len() > 0 && (forall|i: int| 0 <= i < d.len() ==> is_digit(#[trigger] d[i]))
        && digits_value(d) <= 255 {
        Some(digits_value(d) as u8)
    } else {
        None
    }
}

/// The text cut at each period.
pub open spec fn split_dots(s: Seq<char>) -> Seq<Seq<char>>
    decreases s.len(),
{
    if s.len() == 0 {
        seq![seq![]]
    } else {
        let r = split_dots(s.drop_last());
        if s.last() == '.' {
            r.push(seq![])
        } else {
            r.update(r.len() - 1, r.last().push(s.last()))
        }
    }
}

/// The four octets of a dotted-decimal IPv4 address; `None` unless the text
/// has exactly four period-separated parts, each a decimal byte.
pub open spec fn parse_ipv4(s: Seq<char>) -> Option<Seq<u8>> {
    let parts = split_dots(s);
    if parts.len() == 4 && (forall|i: int| 0 <= i < 4 ==> (#[trigger] parse_octet(parts[i])) is Some) {
        Some(seq![
            parse_octet(parts[0])->Some_0,
            parse_octet(parts[1])->Some_0,
            parse_octet(parts[2])->Some_0,
            parse_octet(parts[3])->Some_0,
        ])
    } else {
        None
    }
}

proof fn lemma_split_dots_nonempty(s: Seq<char>)
    ensures
        split_dots(s).len() >= 1,
    decreases s.len(),
{
    if s.len() > 0 {
        lemma_split_dots_nonempty(s.drop_last());
    }
}

/// Appending digits never lowers the value.
proof fn lemma_digits_value_grows(s: Seq<char>, j: int)
    requires
        0 <= j <= s.len(),
        forall|i: int| 0 <= i < s.len() ==> is_digit(#[trigger] s[i]),
    ensures
        digits_value(s.take(j)) <= digits_value(s),
        0 <= digits_value(s.take(j)),
    decreases s.len(),
{
    if j == s.len() {
        assert(s.take(j) =~= s);
        if s.len() > 0 {
            lemma_digits_value_grows(s.drop_last(), 0);
            assert(s.drop_last().take(0) =~= s.take(0));
            assert(s.take(0) =~= Seq::<char>::empty());
            assert(forall|i: int| 0 <= i < s.drop_last().len() ==> s.drop_last()[i] == s[i]);
            lemma_digits_value_grows(s.drop_last(), s.len() - 1);
            assert(s.drop_last().take(s.len() - 1) =~= s.drop_last());
        }
    } else {
        assert(forall|i: int| 0 <= i < s.drop_last().len() ==> s.drop_last()[i] == s[i]);
        lemma_digits_value_grows(s.drop_last(), j);
        assert(s.drop_last().take(j) =~= s.take(j));
        lemma_digits_value_grows(s.drop_last(), s.len() - 1);
        assert(s.drop_last().take(s.len() - 1) =~= s.drop_last());
    }
}

/// Reads a decimal byte as `u8`'s `FromStr` does.
fn parse_octet_chars(s: &Vec<char>) -> (r: Option<u8>)
    ensures
        r == parse_octet(s@),
{
    let start: usize = if s.len() > 0 && s[0] == '+' {
        1
    } else {
        0
    };
    let ghost d = unsigned_digits(s@);
    proof {
        assert(d =~= s@.skip(start as int));
    }
    if s.len() == start {
        return None;
    }
    let mut value: u32 = 0;
    let mut i: usize = start;
    while i < s.len()
        invariant
            start <= i <= s@.len(),
            d == s@.skip(start as int),
            d == unsigned_digits(s@),
            value <= 255,
            value == digits_value(d.take(i - start)),
            forall|j: int| 0 <= j < i - start ==> is_digit(#[trigger] d[j]),
        decreases s@.len() - i,
    {
        let c = s[i];
        if !('0' <= c && c <= '9') {
            proof {
                assert(d[i - start] == c);
            }
            return None;
        }
        proof {
            assert(d.take(i - start + 1).drop_last() =~= d.take(i - start));
            assert(d.take(i - start + 1).last() == c);
        }
        value = value * 10 + (c as u32 - '0' as u32);
        if value > 255 {
            proof {
                assert forall|j: int| 0 <= j < i - start + 1 implies is_digit(
                    #[trigger] d.take(i - start + 1)[j],
                ) by {
                    if j == i - start {
                        assert(d[j] == c);
                    }
                }
                if forall|j: int| 0 <= j < d.len() ==> is_digit(#[trigger] d[j]) {
                    lemma_digits_value_grows(d, i - start + 1);
                }
            }
            return None;
        }
        i += 1;
    }
    proof {
        assert(d.take(d.len() as int) =~= d);
    }
    Some(value as u8)
}

/// Whether `parts` holds the sequences of `v`, in order.
pub open spec fn parts_are(parts: Vec<Vec<char>>, v: Seq<Seq<char>>) -> bool {
    &&& parts@.len() == v.len()
    &&& forall|i: int| 0 <= i < v.len() ==> (#[trigger] parts@[i])@ == v[i]
}

/// Cuts the text at each period.
fn split_at_dots(s: &str) -> (r: Vec<Vec<char>>)
    ensures
        parts_are(r, split_dots(s@)),
{
    let n = s.unicode_len();
    let mut parts: Vec<Vec<char>> = Vec::new();
    parts.push(Vec::new());
    proof {
        assert(parts@[0]@ =~= Seq::<char>::empty());
        assert(s@.take(0).len() == 0);
    }
    let mut i: usize = 0;
    while i < n
        invariant
            0 <= i <= n,
            n == s@.len(),
            parts_are(parts, split_dots(s@.take(i as int))),
        decreases n - i,
    {
        let c = s.get_char(i);
        proof {
            lemma_split_dots_nonempty(s@.take(i as int));
            assert(s@.take(i + 1).drop_last() =~= s@.take(i as int));
            assert(s@.take(i + 1).last() == c);
        }
        let ghost before = split_dots(s@.take(i as int));
        if c == '.' {
            parts.push(Vec::new());
            proof {
                assert(parts@[parts@.len() - 1]@ =~= Seq::<char>::empty());
                assert forall|j: int| 0 <= j < before.len() + 1 implies (#[trigger] parts@[j])@
                    == before.push(seq![])[j] by {}
            }
        } else {
            let last = parts.len() - 1;
            let mut part = parts[last].clone();
            part.push(c);
            parts.set(last, part);
            proof {
                let after = before.update(last as int, before.last().push(c));
                assert forall|j: int| 0 <= j < after.len() implies (#[trigger] parts@[j])@
                    == after[j] by {
                    if j == last {
                        assert(parts@[j]@ =~= after[j]);
                    }
                }
            }
        }
        i += 1;
    }
    proof {
        assert(s@.take(n as int) =~= s@);
    }
    parts
}

impl Record {
    pub fn new(rrtype: RRType, rrclass: RRClass, data: Vec<u8>) -> (r: Record)
        ensures
            r@ == (RecordView { rrtype, rrclass, data: data@ }),
    {
        Record { rrtype, rrclass, data }
    }

    /// An A record of class IN from a dotted-decimal IPv4 address.
    pub fn from_ip_v4(source: &str) -> (r: Result<Record, DnsError>)
        ensures
            match parse_ipv4(source@) {
                Some(data) => r matches Ok(rec) && rec@ == (RecordView {
                    rrtype: RRType::A,
                    rrclass: RRClass::IN,
                    data,
                }),
                None => r == Err::<Record, DnsError>(DnsError::InvalidAddress),
            },
    {
        let parts = split_at_dots(source);
        let ghost split = split_dots(source@);
        if parts.len() != 4 {
            return Err(DnsError::InvalidAddress);
        }
        let mut data: Vec<u8> = Vec::new();
        let mut i: usize = 0;
        while i < 4
            invariant
                0 <= i <= 4,
                parts@.len() == 4,
                parts_are(parts, split_dots(source@)),
                data@.len() == i,
                forall|j: int| 0 <= j < i ==> (#[trigger] parse_octet(split_dots(source@)[j])) == Some(data@[j]),
            decreases 4 - i,
        {
            match parse_octet_chars(&parts[i]) {
                Some(b) => {
                    let ghost before = data@;
                    data.push(b);
                    proof {
                        assert forall|j: int| 0 <= j < i + 1 implies (#[trigger] parse_octet(
                            split_dots(source@)[j],
                        )) == Some(data@[j]) by {
                            if j < i {
                                assert(data@[j] == before[j]);
                            }
                        }
                    }
                },
                None => {
                    return Err(DnsError::InvalidAddress);
                },
            }
            i += 1;
        }
        proof {
            assert(data@ =~= parse_ipv4(source@)->Some_0);
        }
        Ok(Record { rrtype: RRType::A, rrclass: RRClass::IN, data })
    }

    /// A copy of the record.
    pub fn copy(&self) -> (r: Record)
        ensures
            r@ == self@,
    {
        let mut data: Vec<u8> = Vec::new();
        append_bytes(&mut data, self.data.as_slice());
        proof {
            assert(data@ =~= self.data@);
        }
        Record { rrtype: self.rrtype, rrclass: self.rrclass, data }
    }

    pub fn rrtype(&self) -> (r: &RRType)
        ensures
            *r == self@.rrtype,
    {
        &self.rrtype
    }

    pub fn rrclass(&self) -> (r: &RRClass)
        ensures
            *r == self@.rrclass,
    {
        &self.rrclass
    }

    pub fn data(&self) -> (r: &Vec<u8>)
        ensures
            r@ == self@.data,
    {
        &self.data
    }

    /// The wire form of the record: type, class, data length, data.
    pub fn to_vec(&self) -> (r: Vec<u8>)
        ensures
            r@ == encode_record(self@),
    {
        let mut out: Vec<u8> = Vec::new();
        push_be16(&mut out, self.rrtype.into());
        push_be16(&mut out, self.rrclass.into());
        push_be16(&mut out, (self.data.len() % 0x1_0000) as u16);
        append_bytes(&mut out, self.data.as_slice());
        proof {
            assert(out@ =~= encode_record(self@));
        }
        out
    }
}

} // verus!
