use vstd::prelude::*;
use vstd::utf8::*;

use crate::bytes::{append_bytes, copy_range};
use crate::error::DnsError;

verus! {

broadcast use {vstd::utf8::group_utf8_lib, vstd::string::group_string_axioms};

/// A domain name: labels, ended either by the root or by a compression
/// pointer to an earlier offset of the same packet.
#[derive(Clone, Debug, PartialEq, Eq, Hash)]
pub struct Name {
    labels: Vec<String>,
    pointer: Option<u16>,
}

/// What a [`Name`] is: its labels as character sequences, and its pointer.
pub struct NameView {
    pub labels: Seq<Seq<char>>,
    pub pointer: Option<u16>,
}

impl View for Name {
    type V = NameView;

    closed spec fn view(&self) -> NameView {
        NameView { labels: self.labels.deep_view(), pointer: self.pointer }
    }
}

/// Largest number of bytes in a label.
pub const MAX_LABEL_LEN: usize = 63;

/// Largest offset that a compression pointer can hold (14 bits).
pub const MAX_POINTER: u16 = 0x3fff;

/// The UTF-8 bytes of a label.
pub open spec fn label_bytes(l: Seq<char>) -> Seq<u8> {
    encode_utf8(l)
}

/// A label on the wire: its length byte, then its bytes.
pub open spec fn label_wire(l: Seq<char>) -> Seq<u8> {
    seq![label_bytes(l).len() as u8] + label_bytes(l)
}

/// The labels on the wire, one after the other.
pub open spec fn labels_wire(ls: Seq<Seq<char>>) -> Seq<u8>
    decreases ls.len(),
{
    if ls.len() == 0 {
        seq![]
    } else {
        labels_wire(ls.drop_last()) + label_wire(ls.last())
    }
}

/// A compression pointer on the wire: the top two bits set, the low
/// fourteen bits holding the offset.
pub open spec fn pointer_wire(p: u16) -> Seq<u8> {
    seq![(0xc0 + (p % 0x4000) / 256) as u8, (p % 256) as u8]
}

/// The wire form of a name.
pub open spec fn encode_name(n: NameView) -> Seq<u8> {
    labels_wire(n.labels) + match n.pointer {
        None => seq![0u8],
        Some(p) => pointer_wire(p),
    }
}

/// The offset that a pointer's two bytes hold: the top two bits masked off.
pub open spec fn pointer_of(hi: u8, lo: u8) -> u16 {
    ((hi as int % 64) * 256 + lo as int) as u16
}

/// Reads labels from `pos` on, after the labels `acc` already read.
pub open spec fn decode_labels(b: Seq<u8>, pos: int, acc: Seq<Seq<char>>) -> Option<NameView>
    decreases b.len() - pos,
{
    if pos < 0 || pos >= b.len() {
        None
    } else if b[pos] == 0 {
        Some(NameView { labels: acc, pointer: None })
    } else if b[pos] >= 0xc0 {
        if pos + 1 < b.len() {
            Some(NameView { labels: acc, pointer: Some(pointer_of(b[pos], b[pos + 1])) })
        } else {
            None
        }
    } else if b[pos] < 64 {
        let end = pos + 1 + b[pos];
        if end > b.len() || !valid_utf8(b.subrange(pos + 1, end)) {
            None
        } else {
            decode_labels(b, end, acc.push(decode_utf8(b.subrange(pos + 1, end))))
        }
    } else {
        None
    }
}

/// The name whose wire form starts at `start`, or `None` where it is corrupt.
pub open spec fn decode_name_at(b: Seq<u8>, start: int) -> Option<NameView> {
    decode_labels(b, start, seq![])
}

/// A label that decodes as it was encoded: one to 63 bytes.
pub open spec fn label_wf(l: Seq<char>) -> bool {
    1 <= label_bytes(l).len() <= MAX_LABEL_LEN
}

impl NameView {
    /// Every label has one to 63 bytes, and a pointer fits in 14 bits.
    pub open spec fn wf(self) -> bool {
        &&& forall|i: int| 0 <= i < self.labels.len() ==> label_wf(#[trigger] self.labels[i])
        &&& (self.pointer matches Some(p) ==> p <= MAX_POINTER)
    }
}

/// Relies on String::from_utf8: it succeeds exactly on valid UTF-8, with the
/// characters that the bytes encode.
#[verifier::external_body]
fn string_from_utf8(bytes: Vec<u8>) -> (r: Option<String>)
    ensures
        r is Some <==> valid_utf8(bytes@),
        r matches Some(s) ==> s@ == decode_utf8(bytes@),
{
    String::from_utf8(bytes).ok()
}

impl Name {
    pub fn new(labels: Vec<String>, pointer: Option<u16>) -> (r: Name)
        ensures
            r@ == (NameView { labels: labels.deep_view(), pointer }),
    {
        Name { labels, pointer }
    }

    pub fn labels(&self) -> (r: &Vec<String>)
        ensures
            r.deep_view() == self@.labels,
    {
        &self.labels
    }

    pub fn pointer(&self) -> (r: &Option<u16>)
        ensures
            *r == self@.pointer,
    {
        &self.pointer
    }

    /// The wire form of the name.
    pub fn to_vec(&self) -> (r: Vec<u8>)
        ensures
            r@ == encode_name(self@),
    {
        let mut out: Vec<u8> = Vec::new();
        let mut i: usize = 0;
        while i < self.labels.len()
            invariant
                0 <= i <= self.labels@.len(),
                out@ == labels_wire(self@.labels.take(i as int)),
            decreases self.labels@.len() - i,
        {
            let s = self.labels[i].as_str();
            let b = s.as_bytes();
            out.push(b.len() as u8);
            append_bytes(&mut out, b);
            proof {
                let ls = self@.labels.take(i + 1);
                assert(ls.drop_last() =~= self@.labels.take(i as int));
                assert(out@ =~= labels_wire(ls));
            }
            i += 1;
        }
        proof {
            assert(self@.labels.take(self.labels@.len() as int) =~= self@.labels);
        }
        match self.pointer {
            None => out.push(0),
            Some(p) => {
                out.push((0xc0 + (p % 0x4000) / 256) as u8);
                out.push((p % 256) as u8);
            },
        }
        proof {
            assert(out@ =~= encode_name(self@));
        }
        out
    }

    /// Decodes the name whose wire form starts at `start` of `buffer`. A
    /// pointer is kept as it is, not followed.
    pub fn decode(buffer: &[u8], start: usize) -> (r: Result<Name, DnsError>)
        ensures
            match decode_name_at(buffer@, start as int) {
                Some(n) => r matches Ok(name) && name@ == n,
                None => r == Err::<Name, DnsError>(DnsError::CorruptName),
            },
    {
        let ghost b = buffer@;
        let mut pos: usize = start;
        let mut labels: Vec<String> = Vec::new();
        proof {
            assert(labels.deep_view() =~= Seq::<Seq<char>>::empty());
        }
        while pos < buffer.len()
            invariant
                start <= pos,
                b == buffer@,
                decode_name_at(b, start as int) == decode_labels(b, pos as int, labels.deep_view()),
            decreases b.len() - pos,
        {
            let lead = buffer[pos];
            if lead == 0 {
                return Ok(Name { labels, pointer: None });
            } else if lead >= 0xc0 {
                if pos + 1 < buffer.len() {
                    let p: u16 = ((lead - 0xc0) as u16) * 256 + buffer[pos + 1] as u16;
                    return Ok(Name { labels, pointer: Some(p) });
                } else {
                    return Err(DnsError::CorruptName);
                }
            } else if lead < 64 {
                if lead as usize > buffer.len() - pos - 1 {
                    return Err(DnsError::CorruptName);
                }
                let end = pos + 1 + lead as usize;
                let bytes = copy_range(buffer, pos + 1, end);
                match string_from_utf8(bytes) {
                    Some(s) => {
                        let ghost old_labels = labels.deep_view();
                        labels.push(s);
                        proof {
                            assert(labels.deep_view() =~= old_labels.push(s@));
                        }
                        pos = end;
                    },
                    None => {
                        return Err(DnsError::CorruptName);
                    },
                }
            } else {
                return Err(DnsError::CorruptName);
            }
        }
        Err(DnsError::CorruptName)
    }

    /// Decodes a name from the start of `value`.
    pub fn try_from(value: &[u8]) -> (r: Result<Name, DnsError>)
        ensures
            match decode_name_at(value@, 0) {
                Some(n) => r matches Ok(name) && name@ == n,
                None => r == Err::<Name, DnsError>(DnsError::CorruptName),
            },
    {
        Name::decode(value, 0)
    }
}


/// A table from label suffixes to the offsets in a packet where they were
/// written. Earlier entries take precedence over later ones, both when looking
/// up a suffix (compression) and when looking up an offset (expansion).
#[derive(Clone, Debug, PartialEq, Eq, Default)]
pub struct References {
    entries: Vec<(Vec<String>, u16)>,
}

/// What a [`References`] table is: its entries, in the order they were added.
pub type TableView = Seq<(Seq<Seq<char>>, u16)>;

impl View for References {
    type V = TableView;

    closed spec fn view(&self) -> TableView {
        Seq::new(self.entries@.len(), |i: int| (self.entries@[i].0.deep_view(), self.entries@[i].1))
    }
}

/// The offset of the first entry holding suffix `s`.
pub open spec fn offset_of(t: TableView, s: Seq<Seq<char>>) -> Option<u16>
    decreases t.len(),
{
    if t.len() == 0 {
        None
    } else if t[0].0 == s {
        Some(t[0].1)
    } else {
        offset_of(t.drop_first(), s)
    }
}

/// The suffix of the first entry at offset `off`.
pub open spec fn suffix_at(t: TableView, off: u16) -> Option<Seq<Seq<char>>>
    decreases t.len(),
{
    if t.len() == 0 {
        None
    } else if t[0].1 == off {
        Some(t[0].0)
    } else {
        suffix_at(t.drop_first(), off)
    }
}

/// The name with its pointer replaced by the suffix registered at the
/// pointer's offset; `None` where no suffix is registered there.
pub open spec fn expand_name(n: NameView, t: TableView) -> Option<NameView> {
    match n.pointer {
        None => Some(NameView { labels: n.labels, pointer: None }),
        Some(p) => match suffix_at(t, p) {
            Some(s) => Some(NameView { labels: n.labels + s, pointer: None }),
            None => None,
        },
    }
}

/// Compression of labels `ls`, trying the suffixes from the one that starts at
/// label `k` on, longest first.
pub open spec fn compress_from(ls: Seq<Seq<char>>, t: TableView, k: int) -> NameView
    decreases ls.len() - k,
{
    if k < 0 || k >= ls.len() {
        NameView { labels: ls, pointer: None }
    } else if offset_of(t, ls.skip(k)) is Some {
        NameView { labels: ls.take(k), pointer: offset_of(t, ls.skip(k)) }
    } else {
        compress_from(ls, t, k + 1)
    }
}

/// The labels compressed against table `t`: the longest registered
/// non-empty suffix becomes a pointer; with none, the labels stay as they are.
pub open spec fn compress_labels(ls: Seq<Seq<char>>, t: TableView) -> NameView {
    compress_from(ls, t, 0)
}

/// Whether labels `a` are the labels of `b` from index `k` on.
fn labels_match(a: &Vec<String>, b: &Vec<String>, k: usize) -> (r: bool)
    requires
        k <= b@.len(),
    ensures
        r == (a.deep_view() == b.deep_view().skip(k as int)),
{
    if a.len() != b.len() - k {
        proof {
            assert(a.deep_view().len() != b.deep_view().skip(k as int).len());
        }
        return false;
    }
    let n = b.len();
    let mut i: usize = 0;
    while i < a.len()
        invariant
            0 <= i <= a@.len(),
            n == b@.len(),
            a@.len() + k == b@.len(),
            forall|j: int| 0 <= j < i ==> a.deep_view()[j] == #[trigger] b.deep_view()[k + j],
        decreases a@.len() - i,
    {
        if a[i] != b[k + i] {
            proof {
                assert(a.deep_view()[i as int] != b.deep_view().skip(k as int)[i as int]);
            }
            return false;
        }
        i += 1;
    }
    proof {
        assert forall|j: int| 0 <= j < a.deep_view().len() implies a.deep_view()[j]
            == b.deep_view().skip(k as int)[j] by {
            assert(a.deep_view()[j] == b.deep_view()[k + j]);
        }
        assert(a.deep_view() =~= b.deep_view().skip(k as int));
    }
    true
}

/// A copy of labels `v` from index `from` on.
pub(crate) fn clone_labels_from(v: &Vec<String>, from: usize) -> (r: Vec<String>)
    requires
        from <= v@.len(),
    ensures
        r.deep_view() == v.deep_view().skip(from as int),
{
    let mut r: Vec<String> = Vec::new();
    let mut i: usize = from;
    while i < v.len()
        invariant
            from <= i <= v@.len(),
            r.deep_view() == v.deep_view().subrange(from as int, i as int),
        decreases v@.len() - i,
    {
        let ghost before = r.deep_view();
        r.push(v[i].clone());
        proof {
            assert(r.deep_view() =~= before.push(v.deep_view()[i as int]));
            assert(v.deep_view().subrange(from as int, i + 1) =~= v.deep_view().subrange(
                from as int,
                i as int,
            ).push(v.deep_view()[i as int]));
        }
        i += 1;
    }
    proof {
        assert(v.deep_view().subrange(from as int, v@.len() as int) =~= v.deep_view().skip(
            from as int,
        ));
    }
    r
}

/// A copy of the first `n` labels of `v`, followed by the labels of `tail`.
pub(crate) fn clone_labels_joined(v: &Vec<String>, n: usize, tail: &Vec<String>) -> (r: Vec<String>)
    requires
        n <= v@.len(),
    ensures
        r.deep_view() == v.deep_view().take(n as int) + tail.deep_view(),
{
    let mut r: Vec<String> = Vec::new();
    let mut i: usize = 0;
    while i < n
        invariant
            0 <= i <= n <= v@.len(),
            r.deep_view() == v.deep_view().take(i as int),
        decreases n - i,
    {
        let ghost before = r.deep_view();
        r.push(v[i].clone());
        proof {
            assert(r.deep_view() =~= before.push(v.deep_view()[i as int]));
            assert(v.deep_view().take(i + 1) =~= v.deep_view().take(i as int).push(
                v.deep_view()[i as int],
            ));
        }
        i += 1;
    }
    let mut j: usize = 0;
    while j < tail.len()
        invariant
            0 <= j <= tail@.len(),
            r.deep_view() == v.deep_view().take(n as int) + tail.deep_view().take(j as int),
        decreases tail@.len() - j,
    {
        let ghost before = r.deep_view();
        r.push(tail[j].clone());
        proof {
            assert(r.deep_view() =~= before.push(tail.deep_view()[j as int]));
            assert(tail.deep_view().take(j + 1) =~= tail.deep_view().take(j as int).push(
                tail.deep_view()[j as int],
            ));
            assert(v.deep_view().take(n as int) + tail.deep_view().take(j + 1) =~= (
            v.deep_view().take(n as int) + tail.deep_view().take(j as int)).push(
                tail.deep_view()[j as int],
            ));
        }
        j += 1;
    }
    proof {
        assert(tail.deep_view().take(tail@.len() as int) =~= tail.deep_view());
    }
    r
}

impl References {
    pub fn new() -> (r: References)
        ensures
            r@ == Seq::<(Seq<Seq<char>>, u16)>::empty(),
    {
        let r = References { entries: Vec::new() };
        proof {
            assert(r@ =~= Seq::<(Seq<Seq<char>>, u16)>::empty());
        }
        r
    }

    pub fn len(&self) -> (r: usize)
        ensures
            r == self@.len(),
    {
        self.entries.len()
    }

    pub fn is_empty(&self) -> (r: bool)
        ensures
            r == (self@.len() == 0),
    {
        self.entries.len() == 0
    }

    /// Adds an entry after the existing ones, which keep precedence.
    pub fn insert(&mut self, suffix: Vec<String>, offset: u16)
        ensures
            final(self)@ == old(self)@.push((suffix.deep_view(), offset)),
    {
        let ghost suffix_view = suffix.deep_view();
        self.entries.push((suffix, offset));
        proof {
            assert(self@ =~= old(self)@.push((suffix_view, offset)));
        }
    }

    /// The offset registered for the labels of `labels` from index `k` on.
    pub fn offset_of_suffix(&self, labels: &Vec<String>, k: usize) -> (r: Option<u16>)
        requires
            k <= labels@.len(),
        ensures
            r == offset_of(self@, labels.deep_view().skip(k as int)),
    {
        let ghost s = labels.deep_view().skip(k as int);
        let mut i: usize = 0;
        proof {
            assert(self@.skip(0) =~= self@);
        }
        while i < self.entries.len()
            invariant
                0 <= i <= self@.len(),
                k <= labels@.len(),
                s == labels.deep_view().skip(k as int),
                self@.len() == self.entries@.len(),
                offset_of(self@, s) == offset_of(self@.skip(i as int), s),
            decreases self@.len() - i,
        {
            proof {
                assert(self@.skip(i as int).drop_first() =~= self@.skip(i + 1));
                assert(self@.skip(i as int)[0] == self@[i as int]);
            }
            if labels_match(&self.entries[i].0, labels, k) {
                return Some(self.entries[i].1);
            }
            i += 1;
        }
        None
    }

    /// The suffix registered at `offset`.
    pub fn suffix_at(&self, offset: u16) -> (r: Option<&Vec<String>>)
        ensures
            match suffix_at(self@, offset) {
                Some(s) => r matches Some(v) && v.deep_view() == s,
                None => r is None,
            },
    {
        let mut i: usize = 0;
        proof {
            assert(self@.skip(0) =~= self@);
        }
        while i < self.entries.len()
            invariant
                0 <= i <= self@.len(),
                self@.len() == self.entries@.len(),
                suffix_at(self@, offset) == suffix_at(self@.skip(i as int), offset),
            decreases self@.len() - i,
        {
            proof {
                assert(self@.skip(i as int).drop_first() =~= self@.skip(i + 1));
                assert(self@.skip(i as int)[0] == self@[i as int]);
            }
            if self.entries[i].1 == offset {
                return Some(&self.entries[i].0);
            }
            i += 1;
        }
        None
    }
}

impl Name {
    /// Replaces the pointer by the suffix registered at its offset. A name
    /// without a pointer expands to itself.
    pub fn expand(&self, references: &References) -> (r: Result<Name, DnsError>)
        ensures
            match expand_name(self@, references@) {
                Some(n) => r matches Ok(name) && name@ == n,
                None => r == Err::<Name, DnsError>(DnsError::CorruptName),
            },
    {
        match self.pointer {
            None => {
                let labels = clone_labels_from(&self.labels, 0);
                proof {
                    assert(self.labels.deep_view().skip(0) =~= self.labels.deep_view());
                }
                Ok(Name { labels, pointer: None })
            },
            Some(p) => match references.suffix_at(p) {
                Some(suffix) => {
                    let labels = clone_labels_joined(&self.labels, self.labels.len(), suffix);
                    proof {
                        assert(self.labels.deep_view().take(self.labels@.len() as int)
                            =~= self.labels.deep_view());
                    }
                    Ok(Name { labels, pointer: None })
                },
                None => Err(DnsError::CorruptName),
            },
        }
    }

    /// Replaces the longest registered non-empty suffix of the labels by a
    /// pointer to its offset. Only names without a pointer can be compressed.
    pub fn compress(&self, references: &References) -> (r: Result<Name, DnsError>)
        ensures
            self@.pointer is Some ==> r == Err::<Name, DnsError>(DnsError::AlreadyCompressed),
            self@.pointer is None ==> (r matches Ok(name) && name@ == compress_labels(
                self@.labels,
                references@,
            )),
    {
        if self.pointer.is_some() {
            return Err(DnsError::AlreadyCompressed);
        }
        let ghost ls = self@.labels;
        let mut k: usize = 0;
        while k < self.labels.len()
            invariant
                0 <= k <= ls.len(),
                ls == self.labels.deep_view(),
                self.pointer is None,
                compress_labels(ls, references@) == compress_from(ls, references@, k as int),
            decreases ls.len() - k,
        {
            match references.offset_of_suffix(&self.labels, k) {
                Some(p) => {
                    let labels = clone_labels_joined(&self.labels, k, &Vec::new());
                    proof {
                        assert(labels.deep_view() =~= ls.take(k as int));
                    }
                    return Ok(Name { labels, pointer: Some(p) });
                },
                None => {},
            }
            k += 1;
        }
        let labels = clone_labels_from(&self.labels, 0);
        proof {
            assert(ls.skip(0) =~= ls);
        }
        Ok(Name { labels, pointer: None })
    }
}


/// The wire form of two label sequences, one after the other, is the wire
/// form of the first followed by that of the second.
pub proof fn lemma_labels_wire_concat(a: Seq<Seq<char>>, b: Seq<Seq<char>>)
    ensures
        labels_wire(a + b) == labels_wire(a) + labels_wire(b),
    decreases b.len(),
{
    if b.len() == 0 {
        assert(a + b =~= a);
        assert(labels_wire(a) + labels_wire(b) =~= labels_wire(a));
    } else {
        lemma_labels_wire_concat(a, b.drop_last());
        assert((a + b).drop_last() =~= a + b.drop_last());
        assert((a + b).last() == b.last());
        assert(labels_wire(a + b) =~= labels_wire(a) + labels_wire(b));
    }
}

/// Reading the wire form of well-formed labels at `pos` reads those labels.
proof fn lemma_decode_labels_wire(b: Seq<u8>, pos: int, acc: Seq<Seq<char>>, ls: Seq<Seq<char>>)
    requires
        0 <= pos,
        pos + labels_wire(ls).len() <= b.len(),
        b.subrange(pos, pos + labels_wire(ls).len()) == labels_wire(ls),
        forall|i: int| 0 <= i < ls.len() ==> label_wf(#[trigger] ls[i]),
    ensures
        decode_labels(b, pos, acc) == decode_labels(b, pos + labels_wire(ls).len(), acc + ls),
    decreases ls.len(),
{
    if ls.len() == 0 {
        assert(acc + ls =~= acc);
    } else {
        let init = ls.drop_last();
        let l = ls.last();
        let q = pos + labels_wire(init).len();
        assert(b.subrange(pos, q) =~= labels_wire(init)) by {
            assert(b.subrange(pos, q) =~= b.subrange(pos, pos + labels_wire(ls).len()).subrange(
                0,
                labels_wire(init).len() as int,
            ));
        }
        assert forall|i: int| 0 <= i < init.len() implies label_wf(#[trigger] init[i]) by {
            assert(init[i] == ls[i]);
        }
        lemma_decode_labels_wire(b, pos, acc, init);
        assert(label_wf(ls[ls.len() - 1]));
        let bytes = label_bytes(l);
        let end = q + 1 + bytes.len();
        assert(b[q] == labels_wire(ls)[q - pos]);
        assert(b[q] == bytes.len() as u8);
        assert(b.subrange(q + 1, end) =~= bytes) by {
            assert forall|j: int| 0 <= j < bytes.len() implies b.subrange(q + 1, end)[j]
                == bytes[j] by {
                assert(b[q + 1 + j] == labels_wire(ls)[q + 1 + j - pos]);
            }
        }
        assert((acc + init).push(l) =~= acc + ls);
    }
}

/// Decoding the wire form of a well-formed name gives the name back, wherever
/// it stands in a packet and whatever follows it.
pub proof fn lemma_name_round_trip(n: NameView, prefix: Seq<u8>, rest: Seq<u8>)
    requires
        n.wf(),
    ensures
        decode_name_at(prefix + encode_name(n) + rest, prefix.len() as int) == Some(n),
{
    let b = prefix + encode_name(n) + rest;
    let pos = prefix.len() as int;
    let lw = labels_wire(n.labels);
    let end = pos + lw.len();
    assert(b.subrange(pos, end) =~= lw);
    lemma_decode_labels_wire(b, pos, seq![], n.labels);
    assert(Seq::<Seq<char>>::empty() + n.labels =~= n.labels);
    assert(b[end] == encode_name(n)[lw.len() as int]);
    match n.pointer {
        None => {},
        Some(p) => {
            assert(b[end + 1] == encode_name(n)[lw.len() as int + 1]);
            assert(pointer_of(b[end], b[end + 1]) == p) by {
                assert(p / 256 < 64);
                assert(b[end] == 0xc0 + p / 256);
                assert((0xc0 + p / 256) % 64 == p / 256);
            }
        },
    }
}

/// A leading byte from 64 to 191 is neither a label length nor a pointer:
/// the name is corrupt.
pub proof fn lemma_illegal_length_byte(b: Seq<u8>, start: int)
    requires
        0 <= start < b.len(),
        64 <= b[start] < 0xc0,
    ensures
        decode_name_at(b, start) is None,
{
}


impl Name {
    /// The number of bytes of the name's wire form.
    #[allow(clippy::len_without_is_empty)]
    pub fn len(&self) -> (r: usize)
        requires
            encode_name(self@).len() <= usize::MAX,
        ensures
            r == encode_name(self@).len(),
    {
        let ghost ls = self@.labels;
        let mut sum: usize = 0;
        let mut i: usize = 0;
        while i < self.labels.len()
            invariant
                0 <= i <= ls.len(),
                ls == self.labels.deep_view(),
                encode_name(self@).len() <= usize::MAX,
                sum == labels_wire(ls.take(i as int)).len(),
            decreases ls.len() - i,
        {
            proof {
                assert(ls.take(i + 1).drop_last() =~= ls.take(i as int));
                lemma_labels_wire_concat(ls.take(i + 1), ls.skip(i + 1));
                assert(ls.take(i + 1) + ls.skip(i + 1) =~= ls);
            }
            sum = sum + self.labels[i].as_str().len() + 1;
            i += 1;
        }
        proof {
            assert(ls.take(ls.len() as int) =~= ls);
        }
        if self.pointer.is_none() {
            sum + 1
        } else {
            sum + 2
        }
    }
}

impl From<Vec<String>> for Name {
    fn from(value: Vec<String>) -> (r: Name) {
        Name { labels: value, pointer: None }
    }
}

impl vstd::std_specs::convert::FromSpecImpl<Vec<String>> for Name {
    open spec fn obeys_from_spec() -> bool {
        true
    }

    closed spec fn from_spec(v: Vec<String>) -> Name {
        Name { labels: v, pointer: None }
    }
}

/// A name made from labels alone has those labels and no pointer.
pub proof fn lemma_name_from_labels(v: Vec<String>)
    ensures
        <Name as vstd::std_specs::convert::FromSpec<Vec<String>>>::from_spec(v)@ == (NameView {
            labels: v.deep_view(),
            pointer: None,
        }),
{
}


impl Name {
    /// A copy of the name.
    pub fn copy(&self) -> (r: Name)
        ensures
            r@ == self@,
    {
        let labels = clone_labels_from(&self.labels, 0);
        proof {
            assert(self.labels.deep_view().skip(0) =~= self.labels.deep_view());
        }
        Name { labels, pointer: self.pointer }
    }
}

/// What decoding reads is what encoding the result writes: a decoded name is
/// well-formed, and its wire form is the bytes it was read from.
pub proof fn lemma_decoded_name_bytes(b: Seq<u8>, start: int)
    requires
        0 <= start,
        decode_name_at(b, start) is Some,
    ensures
        ({
            let n = decode_name_at(b, start)->Some_0;
            &&& n.wf()
            &&& start + encode_name(n).len() <= b.len()
            &&& b.subrange(start, start + encode_name(n).len()) == encode_name(n)
        }),
{
    lemma_decode_labels_bytes(b, start, seq![]);
    let n = decode_name_at(b, start)->Some_0;
    assert(n.labels.skip(0) =~= n.labels);
}

proof fn lemma_decode_labels_bytes(b: Seq<u8>, pos: int, acc: Seq<Seq<char>>)
    requires
        0 <= pos,
        decode_labels(b, pos, acc) is Some,
        forall|i: int| 0 <= i < acc.len() ==> label_wf(#[trigger] acc[i]),
    ensures
        ({
            let n = decode_labels(b, pos, acc)->Some_0;
            let rest = NameView { labels: n.labels.skip(acc.len() as int), pointer: n.pointer };
            &&& n.wf()
            &&& acc.len() <= n.labels.len()
            &&& n.labels.take(acc.len() as int) == acc
            &&& pos + encode_name(rest).len() <= b.len()
            &&& b.subrange(pos, pos + encode_name(rest).len()) == encode_name(rest)
        }),
    decreases b.len() - pos,
{
    let n = decode_labels(b, pos, acc)->Some_0;
    let rest = NameView { labels: n.labels.skip(acc.len() as int), pointer: n.pointer };
    if b[pos] == 0 {
        assert(rest.labels =~= Seq::<Seq<char>>::empty());
        assert(n.labels.take(acc.len() as int) =~= acc);
        assert(b.subrange(pos, pos + 1) =~= encode_name(rest));
    } else if b[pos] >= 0xc0 {
        assert(rest.labels =~= Seq::<Seq<char>>::empty());
        assert(n.labels.take(acc.len() as int) =~= acc);
        let p = pointer_of(b[pos], b[pos + 1]);
        assert(p / 256 == b[pos] % 64 && p % 256 == b[pos + 1]);
        assert(b.subrange(pos, pos + 2) =~= encode_name(rest));
    } else {
        let end = pos + 1 + b[pos];
        let bytes = b.subrange(pos + 1, end);
        let l = decode_utf8(bytes);
        let acc2 = acc.push(l);
        assert(label_bytes(l) == bytes);
        assert forall|i: int| 0 <= i < acc2.len() implies label_wf(#[trigger] acc2[i]) by {
            if i < acc.len() {
                assert(acc2[i] == acc[i]);
            }
        }
        lemma_decode_labels_bytes(b, end, acc2);
        let rest2 = NameView { labels: n.labels.skip(acc2.len() as int), pointer: n.pointer };
        assert(n.labels.take(acc.len() as int) =~= n.labels.take(acc2.len() as int).take(
            acc.len() as int,
        ));
        assert(n.labels[acc.len() as int] == n.labels.take(acc2.len() as int)[acc.len() as int]);
        assert(rest.labels =~= seq![l] + rest2.labels);
        lemma_labels_wire_concat(seq![l], rest2.labels);
        assert(seq![l].drop_last() =~= Seq::<Seq<char>>::empty());
        assert(seq![l].last() == l);
        assert(labels_wire(Seq::<Seq<char>>::empty()) =~= Seq::<u8>::empty());
        assert(labels_wire(seq![l]) =~= labels_wire(seq![l].drop_last()) + label_wire(l));
        assert(labels_wire(seq![l]) =~= label_wire(l));
        assert(encode_name(rest) =~= label_wire(l) + encode_name(rest2));
        assert(b.subrange(pos, end) =~= label_wire(l));
        assert(b.subrange(pos, pos + encode_name(rest).len()) =~= b.subrange(pos, end) + b.subrange(
            end,
            end + encode_name(rest2).len(),
        ));
    }
}


/// Compression keeps a prefix of the labels.
pub proof fn lemma_compress_keeps_prefix(ls: Seq<Seq<char>>, t: TableView, k: int)
    ensures
        compress_from(ls, t, k).labels.len() <= ls.len(),
        compress_from(ls, t, k).labels == ls.take(compress_from(ls, t, k).labels.len() as int),
    decreases ls.len() - k,
{
    if k < 0 || k >= ls.len() {
        assert(ls.take(ls.len() as int) =~= ls);
    } else if offset_of(t, ls.skip(k)) is Some {
    } else {
        lemma_compress_keeps_prefix(ls, t, k + 1);
    }
}

} // verus!
