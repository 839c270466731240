//! Properties of the suffix table and of whole messages, proved over the
//! spec functions that the codec's contracts use.

use vstd::prelude::*;

use crate::bytes::lemma_be16_round_trip;
use crate::message::{
    answer_entries, decode_query, decode_question_at, decode_questions, encode_entries,
    encode_entry, encode_question, encode_response, header_bytes, lemma_encode_entries_concat,
    names_expanded, question_entries, question_tail, register_encoded, register_own,
    register_question, QuestionView, ResponseView,
};
use crate::types::{lemma_codes_round_trip, OpCode};
use crate::name::{
    compress_from, compress_labels, decode_name_at, encode_name, expand_name, label_wf,
    labels_wire, lemma_labels_wire_concat, lemma_name_round_trip, offset_of, suffix_at, NameView,
    TableView, MAX_POINTER,
};

verus! {

proof fn lemma_offset_of_none(t: TableView, s: Seq<Seq<char>>)
    requires
        forall|i: int| 0 <= i < t.len() ==> (#[trigger] t[i]).0 != s,
    ensures
        offset_of(t, s) is None,
    decreases t.len(),
{
    if t.len() > 0 {
        assert forall|i: int| 0 <= i < t.drop_first().len() implies (
        #[trigger] t.drop_first()[i]).0 != s by {
            assert(t.drop_first()[i] == t[i + 1]);
        }
        lemma_offset_of_none(t.drop_first(), s);
    }
}

proof fn lemma_offset_of_some(t: TableView, s: Seq<Seq<char>>)
    requires
        offset_of(t, s) is Some,
    ensures
        exists|i: int|
            0 <= i < t.len() && (#[trigger] t[i]).0 == s && t[i].1 == offset_of(t, s)->Some_0,
    decreases t.len(),
{
    if t[0].0 == s {
        assert(t[0].0 == s);
    } else {
        lemma_offset_of_some(t.drop_first(), s);
        let i = choose|i: int|
            0 <= i < t.drop_first().len() && (#[trigger] t.drop_first()[i]).0 == s
                && t.drop_first()[i].1 == offset_of(t.drop_first(), s)->Some_0;
        assert(t[i + 1] == t.drop_first()[i]);
    }
}

proof fn lemma_offset_of_hit(t: TableView, s: Seq<Seq<char>>, i: int)
    requires
        0 <= i < t.len(),
        t[i].0 == s,
    ensures
        offset_of(t, s) is Some,
    decreases t.len(),
{
    if t[0].0 != s {
        assert(t.drop_first()[i - 1] == t[i]);
        lemma_offset_of_hit(t.drop_first(), s, i - 1);
    }
}

proof fn lemma_suffix_at_first(t: TableView, off: u16, i: int)
    requires
        0 <= i < t.len(),
        t[i].1 == off,
        forall|j: int| 0 <= j < i ==> (#[trigger] t[j]).1 != off,
    ensures
        suffix_at(t, off) == Some(t[i].0),
    decreases t.len(),
{
    if i > 0 {
        assert(t[0].1 != off);
        assert forall|j: int| 0 <= j < i - 1 implies (#[trigger] t.drop_first()[j]).1 != off by {
            assert(t.drop_first()[j] == t[j + 1]);
        }
        lemma_suffix_at_first(t.drop_first(), off, i - 1);
    }
}

/// The byte length of a prefix of labels grows with the prefix.
proof fn lemma_labels_wire_prefix(ls: Seq<Seq<char>>, m: int, k: int)
    requires
        0 <= m < k <= ls.len(),
        forall|i: int| 0 <= i < ls.len() ==> label_wf(#[trigger] ls[i]),
    ensures
        labels_wire(ls.take(m)).len() + 2 <= labels_wire(ls.take(k)).len(),
        labels_wire(ls.take(k)).len() <= labels_wire(ls).len(),
{
    lemma_labels_wire_concat(ls.take(m), ls.subrange(m, k));
    assert(ls.take(m) + ls.subrange(m, k) =~= ls.take(k));
    let mid = ls.subrange(m, k);
    assert(mid.drop_last().len() + 1 == mid.len());
    lemma_labels_wire_concat(mid.drop_last(), seq![mid.last()]);
    assert(mid.drop_last() + seq![mid.last()] =~= mid);
    assert(label_wf(ls[k - 1]));
    assert(seq![mid.last()].drop_last() =~= Seq::<Seq<char>>::empty());
    assert(labels_wire(seq![mid.last()]).len() >= 2);
    lemma_labels_wire_concat(ls.take(k), ls.skip(k));
    assert(ls.take(k) + ls.skip(k) =~= ls);
}

/// The table that writing well-formed labels `ls` at `off` builds from an
/// empty table: one entry per label, its suffix at its offset.
proof fn lemma_register_fresh(ls: Seq<Seq<char>>, off: int, k: int)
    requires
        0 <= k <= ls.len(),
        0 <= off,
        off + labels_wire(ls).len() <= MAX_POINTER,
        forall|i: int| 0 <= i < ls.len() ==> label_wf(#[trigger] ls[i]),
    ensures
        register_encoded(seq![], ls, off, k).len() == k,
        forall|m: int|
            0 <= m < k ==> #[trigger] register_encoded(seq![], ls, off, k)[m] == (
                ls.skip(m),
                (off + labels_wire(ls.take(m)).len()) as u16,
            ),
    decreases k,
{
    if k > 0 {
        lemma_register_fresh(ls, off, k - 1);
        let t2 = register_encoded(seq![], ls, off, k - 1);
        assert forall|i: int| 0 <= i < t2.len() implies (#[trigger] t2[i]).0 != ls.skip(k - 1) by {
            assert(t2[i].0.len() != ls.skip(k - 1).len());
        }
        lemma_offset_of_none(t2, ls.skip(k - 1));
        if k - 1 > 0 {
            lemma_labels_wire_prefix(ls, 0, k - 1);
        } else {
            assert(ls.take(0) =~= Seq::<Seq<char>>::empty());
        }
        lemma_labels_wire_concat(ls.take(k - 1), ls.skip(k - 1));
        assert(ls.take(k - 1) + ls.skip(k - 1) =~= ls);
    }
}

/// Compression stops at the first registered suffix, at or before any
/// registered one.
proof fn lemma_compress_finds(ls: Seq<Seq<char>>, t: TableView, start: int, k: int)
    requires
        0 <= start <= k < ls.len(),
        offset_of(t, ls.skip(k)) is Some,
    ensures
        exists|k2: int|
            start <= k2 <= k && offset_of(t, ls.skip(k2)) is Some && #[trigger] compress_from(
                ls,
                t,
                start,
            ) == (NameView { labels: ls.take(k2), pointer: offset_of(t, ls.skip(k2)) }),
    decreases k - start,
{
    if offset_of(t, ls.skip(start)) is Some {
        assert(compress_from(ls, t, start) == (NameView {
            labels: ls.take(start),
            pointer: offset_of(t, ls.skip(start)),
        }));
    } else {
        lemma_compress_finds(ls, t, start + 1, k);
    }
}

/// Compression round trip: let a table be built by writing the well-formed
/// name `a` at offset `off`, small enough that every offset in it fits a
/// pointer. A well-formed name `b` that shares a non-empty suffix with `a`
/// then compresses to a pointer into the bytes that `a` occupies; decoding
/// the compressed name's bytes and expanding it against that table gives
/// back `b`'s labels.
pub proof fn lemma_compression_round_trip(a: NameView, b: NameView, off: int, i: int, j: int)
    requires
        a.wf(),
        b.wf(),
        a.pointer is None,
        b.pointer is None,
        0 <= off,
        off + labels_wire(a.labels).len() <= MAX_POINTER,
        0 <= i < a.labels.len(),
        0 <= j < b.labels.len(),
        a.labels.skip(i) == b.labels.skip(j),
    ensures
        ({
            let t = register_encoded(seq![], a.labels, off, a.labels.len() as int);
            let c = compress_labels(b.labels, t);
            &&& c.pointer matches Some(p) && off <= p < off + encode_name(a).len()
            &&& decode_name_at(encode_name(c), 0) == Some(c)
            &&& expand_name(c, t) == Some(NameView { labels: b.labels, pointer: None })
        }),
{
    let n = a.labels.len() as int;
    let t = register_encoded(seq![], a.labels, off, n);
    lemma_register_fresh(a.labels, off, n);
    assert(t[i] == (a.labels.skip(i), (off + labels_wire(a.labels.take(i)).len()) as u16));
    lemma_offset_of_hit(t, b.labels.skip(j), i);
    lemma_compress_finds(b.labels, t, 0, j);
    let k2 = choose|k2: int|
        0 <= k2 <= j && offset_of(t, b.labels.skip(k2)) is Some && #[trigger] compress_from(
            b.labels,
            t,
            0,
        ) == (NameView { labels: b.labels.take(k2), pointer: offset_of(t, b.labels.skip(k2)) });
    let c = compress_labels(b.labels, t);
    let s = b.labels.skip(k2);
    lemma_offset_of_some(t, s);
    let m = choose|m: int| 0 <= m < t.len() && (#[trigger] t[m]).0 == s && t[m].1 == offset_of(
        t,
        s,
    )->Some_0;
    let p = t[m].1;
    let pm = off + labels_wire(a.labels.take(m)).len();
    if m > 0 {
        lemma_labels_wire_prefix(a.labels, 0, m);
    } else {
        assert(a.labels.take(0) =~= Seq::<Seq<char>>::empty());
    }
    if m + 1 <= n {
        lemma_labels_wire_prefix(a.labels, m, m + 1);
    }
    assert(p == pm);
    assert forall|q: int| 0 <= q < m implies (#[trigger] t[q]).1 != p by {
        lemma_labels_wire_prefix(a.labels, q, m);
    }
    lemma_suffix_at_first(t, p, m);
    assert(b.labels.take(k2) + s =~= b.labels);
    assert forall|x: int| 0 <= x < c.labels.len() implies label_wf(#[trigger] c.labels[x]) by {
        assert(c.labels[x] == b.labels[x]);
    }
    lemma_name_round_trip(c, seq![], seq![]);
    assert(Seq::<u8>::empty() + encode_name(c) + Seq::<u8>::empty() =~= encode_name(c));
}


proof fn lemma_suffix_at_push_keeps(t: TableView, x: (Seq<Seq<char>>, u16), off: u16)
    requires
        suffix_at(t, off) is Some,
    ensures
        suffix_at(t.push(x), off) == suffix_at(t, off),
    decreases t.len(),
{
    if t[0].1 != off {
        assert(t.push(x).drop_first() =~= t.drop_first().push(x));
        lemma_suffix_at_push_keeps(t.drop_first(), x, off);
    }
}

proof fn lemma_suffix_at_push_new(t: TableView, x: (Seq<Seq<char>>, u16))
    requires
        forall|i: int| 0 <= i < t.len() ==> (#[trigger] t[i]).1 != x.1,
    ensures
        suffix_at(t.push(x), x.1) == Some(x.0),
    decreases t.len(),
{
    if t.len() > 0 {
        assert(t[0].1 != x.1);
        assert(t.push(x).drop_first() =~= t.drop_first().push(x));
        assert forall|i: int| 0 <= i < t.drop_first().len() implies (
        #[trigger] t.drop_first()[i]).1 != x.1 by {
            assert(t.drop_first()[i] == t[i + 1]);
        }
        lemma_suffix_at_push_new(t.drop_first(), x);
    }
}

proof fn lemma_suffix_at_absent(t: TableView, off: u16)
    requires
        forall|i: int| 0 <= i < t.len() ==> (#[trigger] t[i]).1 != off,
    ensures
        suffix_at(t, off) is None,
    decreases t.len(),
{
    if t.len() > 0 {
        assert forall|i: int| 0 <= i < t.drop_first().len() implies (
        #[trigger] t.drop_first()[i]).1 != off by {
            assert(t.drop_first()[i] == t[i + 1]);
        }
        lemma_suffix_at_absent(t.drop_first(), off);
    }
}

/// What compression from label `k` on gives: either the labels unchanged,
/// or the labels before some `k2` and a pointer to where the suffix from
/// `k2` is registered; no suffix that starts among the labels kept is
/// registered.
proof fn lemma_compress_shape(ls: Seq<Seq<char>>, t: TableView, k: int)
    requires
        0 <= k <= ls.len(),
    ensures
        ({
            let c = compress_from(ls, t, k);
            &&& (c.pointer is None ==> c.labels == ls)
            &&& (c.pointer is Some ==> k <= c.labels.len() < ls.len() && c.labels == ls.take(
                c.labels.len() as int,
            ) && c.pointer == offset_of(t, ls.skip(c.labels.len() as int)))
            &&& forall|j: int|
                k <= j < c.labels.len() && j < ls.len() ==> (#[trigger] offset_of(
                    t,
                    ls.skip(j),
                )) is None
        }),
    decreases ls.len() - k,
{
    if k >= ls.len() {
    } else if offset_of(t, ls.skip(k)) is Some {
    } else {
        lemma_compress_shape(ls, t, k + 1);
    }
}

/// Compression never spells out a registered suffix: of the labels that a
/// compressed name keeps, no suffix starting among them is in the table, so
/// the suffix replaced by the pointer is the longest registered one.
pub proof fn lemma_compress_longest(ls: Seq<Seq<char>>, t: TableView)
    ensures
        ({
            let c = compress_labels(ls, t);
            &&& c.labels.len() <= ls.len()
            &&& forall|j: int|
                0 <= j < c.labels.len() && j < ls.len() ==> (#[trigger] offset_of(
                    t,
                    ls.skip(j),
                )) is None
            &&& (c.pointer is None ==> c.labels == ls)
            &&& (c.pointer is Some ==> c.labels == ls.take(c.labels.len() as int)
                && c.pointer == offset_of(t, ls.skip(c.labels.len() as int)))
        }),
{
    lemma_compress_shape(ls, t, 0);
}

/// Registering a decoded question's suffixes: entries already there keep
/// their lookups, new entries lie from `ptr` up to the offset of label `k`,
/// and each label's offset that a pointer can hold finds its suffix.
proof fn lemma_register_own(
    t: TableView,
    own: Seq<Seq<char>>,
    full: Seq<Seq<char>>,
    ptr: int,
    k: int,
)
    requires
        0 <= k <= own.len(),
        0 <= ptr,
        forall|i: int| 0 <= i < own.len() ==> label_wf(#[trigger] own[i]),
        forall|i: int| 0 <= i < t.len() ==> (#[trigger] t[i]).1 < ptr,
    ensures
        ({
            let tk = register_own(t, own, full, ptr, k);
            &&& forall|o: u16| #[trigger]
                suffix_at(t, o) is Some ==> suffix_at(tk, o) == suffix_at(t, o)
            &&& forall|i: int|
                0 <= i < tk.len() ==> (#[trigger] tk[i]).1 < ptr + labels_wire(own.take(k)).len()
            &&& forall|m: int|
                0 <= m < k && ptr + labels_wire(own.take(m)).len() <= MAX_POINTER ==> suffix_at(
                    tk,
                    (ptr + #[trigger] labels_wire(own.take(m)).len()) as u16,
                ) == Some(full.skip(m))
        }),
    decreases k,
{
    if k == 0 {
        assert(own.take(0) =~= Seq::<Seq<char>>::empty());
    } else {
        lemma_register_own(t, own, full, ptr, k - 1);
        let t2 = register_own(t, own, full, ptr, k - 1);
        let o = ptr + labels_wire(own.take(k - 1)).len();
        lemma_labels_wire_prefix(own, k - 1, k);
        if o <= MAX_POINTER {
            let x = (full.skip(k - 1), o as u16);
            assert forall|o2: u16| #[trigger] suffix_at(t, o2) is Some implies suffix_at(
                t2.push(x),
                o2,
            ) == suffix_at(t, o2) by {
                lemma_suffix_at_push_keeps(t2, x, o2);
            }
            assert forall|m: int|
                0 <= m < k && ptr + labels_wire(own.take(m)).len() <= MAX_POINTER implies suffix_at(
                t2.push(x),
                (ptr + #[trigger] labels_wire(own.take(m)).len()) as u16,
            ) == Some(full.skip(m)) by {
                if m < k - 1 {
                    lemma_suffix_at_push_keeps(
                        t2,
                        x,
                        (ptr + labels_wire(own.take(m)).len()) as u16,
                    );
                } else {
                    lemma_suffix_at_push_new(t2, x);
                }
            }
        }
    }
}

/// The decoder registers a question only at offsets before the next
/// question: after reading the question at `ptr`, every registered offset
/// lies before `ptr` plus the question's name length.
pub proof fn lemma_register_question_before(
    t: TableView,
    own: NameView,
    full: Seq<Seq<char>>,
    ptr: int,
)
    requires
        0 <= ptr,
        own.wf(),
        forall|i: int| 0 <= i < t.len() ==> (#[trigger] t[i]).1 < ptr,
    ensures
        forall|i: int|
            0 <= i < register_question(t, own.labels, full, ptr).len() ==> (#[trigger] register_question(
                t,
                own.labels,
                full,
                ptr,
            )[i]).1 < ptr + encode_name(own).len(),
{
    lemma_register_own(t, own.labels, full, ptr, own.labels.len() as int);
    assert(own.labels.take(own.labels.len() as int) =~= own.labels);
}

/// A pointer never reaches forward: when every registered offset lies before
/// the question at `ptr`, as the decoder keeps it, a name there whose pointer
/// is at or after `ptr` cannot be expanded, and reading stops at it.
pub proof fn lemma_forward_pointer_stops(
    b: Seq<u8>,
    ptr: int,
    remaining: int,
    t: TableView,
    acc: Seq<QuestionView>,
)
    requires
        0 <= ptr < b.len(),
        remaining > 0,
        forall|i: int| 0 <= i < t.len() ==> (#[trigger] t[i]).1 < ptr,
        decode_name_at(b, ptr) matches Some(n) && n.pointer matches Some(p) && p >= ptr,
    ensures
        decode_questions(b, ptr, remaining, t, acc) == (acc, false),
{
    let n = decode_name_at(b, ptr)->Some_0;
    lemma_suffix_at_absent(t, n.pointer->Some_0);
}


/// Writing entries only appends to the bytes written before.
proof fn lemma_entries_grow(st: (TableView, Seq<u8>), es: Seq<(Seq<Seq<char>>, Seq<u8>)>)
    ensures
        encode_entries(st, es).1.len() >= st.1.len(),
        encode_entries(st, es).1.subrange(0, st.1.len() as int) == st.1,
    decreases es.len(),
{
    if es.len() > 0 {
        lemma_entries_grow(st, es.drop_last());
        let prev = encode_entries(st, es.drop_last()).1;
        let now = encode_entries(st, es).1;
        assert(now.subrange(0, st.1.len() as int) =~= prev.subrange(0, st.1.len() as int));
    }
}

/// Every entry the encoder registers is at an offset a pointer can hold, and
/// is found at that offset in `d`, given that each label's offset is.
proof fn lemma_register_encoded_found(
    e: TableView,
    ls: Seq<Seq<char>>,
    off: int,
    k: int,
    d: TableView,
)
    requires
        0 <= k <= ls.len(),
        0 <= off,
        forall|i: int|
            0 <= i < e.len() ==> (#[trigger] e[i]).1 <= MAX_POINTER && suffix_at(d, e[i].1) == Some(
                e[i].0,
            ),
        forall|m: int|
            0 <= m < k && off + labels_wire(ls.take(m)).len() <= MAX_POINTER ==> suffix_at(
                d,
                (off + #[trigger] labels_wire(ls.take(m)).len()) as u16,
            ) == Some(ls.skip(m)),
    ensures
        forall|i: int|
            0 <= i < register_encoded(e, ls, off, k).len() ==> (#[trigger] register_encoded(
                e,
                ls,
                off,
                k,
            )[i]).1 <= MAX_POINTER && suffix_at(d, register_encoded(e, ls, off, k)[i].1) == Some(
                register_encoded(e, ls, off, k)[i].0,
            ),
    decreases k,
{
    if k > 0 {
        lemma_register_encoded_found(e, ls, off, k - 1, d);
        let t2 = register_encoded(e, ls, off, k - 1);
        let o = off + labels_wire(ls.take(k - 1)).len();
        if o <= MAX_POINTER && offset_of(t2, ls.skip(k - 1)) is None {
            let t3 = t2.push((ls.skip(k - 1), o as u16));
            assert(suffix_at(d, (off + labels_wire(ls.take(k - 1)).len()) as u16) == Some(
                ls.skip(k - 1),
            ));
            assert forall|i: int| 0 <= i < t3.len() implies (#[trigger] t3[i]).1 <= MAX_POINTER
                && suffix_at(d, t3[i].1) == Some(t3[i].0) by {
                if i < t2.len() {
                    assert(t3[i] == t2[i]);
                    assert(t2[i].1 <= MAX_POINTER && suffix_at(d, t2[i].1) == Some(t2[i].0));
                } else {
                    assert(t3[i] == (ls.skip(k - 1), o as u16));
                }
            }
        }
    }
}

/// The state of the encoder after the first `k` questions of `r`.
spec fn section_state(r: ResponseView, k: int) -> (TableView, Seq<u8>) {
    encode_entries((seq![], header_bytes(r)), question_entries(r.questions).take(k))
}

/// The bytes of the header and of the question section of `r`.
spec fn section_bytes(r: ResponseView) -> Seq<u8> {
    encode_entries((seq![], header_bytes(r)), question_entries(r.questions)).1
}

/// A question whose wire form stands at `ptr` reads back.
proof fn lemma_question_read(b: Seq<u8>, ptr: int, c: NameView, q: QuestionView)
    requires
        0 <= ptr,
        c.wf(),
        ptr + encode_name(c).len() + 4 <= b.len(),
        b.subrange(ptr, ptr + encode_name(c).len() + 4) == encode_name(c) + question_tail(q),
    ensures
        decode_question_at(b, ptr) == Ok::<QuestionView, crate::error::DnsError>(
            QuestionView { name: c, qtype: q.qtype, qclass: q.qclass },
        ),
{
    let len_c = encode_name(c).len() as int;
    let qbytes = encode_name(c) + question_tail(q);
    let rest = b.skip(ptr + len_c);
    assert(b =~= b.take(ptr) + encode_name(c) + rest) by {
        assert forall|x: int| ptr <= x < ptr + len_c implies b[x] == encode_name(c)[x - ptr] by {
            assert(b.subrange(ptr, ptr + len_c + 4)[x - ptr] == b[x]);
        }
    }
    lemma_name_round_trip(c, b.take(ptr), rest);
    let m = ptr + len_c;
    assert(b[m] == b.subrange(ptr, ptr + len_c + 4)[len_c]);
    assert(b[m + 1] == b.subrange(ptr, ptr + len_c + 4)[len_c + 1]);
    assert(b[m + 2] == b.subrange(ptr, ptr + len_c + 4)[len_c + 2]);
    assert(b[m + 3] == b.subrange(ptr, ptr + len_c + 4)[len_c + 3]);
    lemma_be16_round_trip(q.qtype.spec_code());
    lemma_be16_round_trip(q.qclass.spec_code());
    lemma_codes_round_trip(q.qtype, q.qclass, OpCode::Query);
}

/// After the encoder writes labels `ls` compressed to `c` at `ptr`, and the
/// decoder registers what it read there, the decoder's table still finds
/// every entry of the encoder's table, and holds offsets before the end of
/// the name only.
proof fn lemma_tables_step(d: TableView, e: TableView, ls: Seq<Seq<char>>, c: NameView, ptr: int)
    requires
        0 <= ptr,
        c.wf(),
        c.labels.len() <= ls.len(),
        c.labels == ls.take(c.labels.len() as int),
        forall|i: int| 0 <= i < d.len() ==> (#[trigger] d[i]).1 < ptr,
        forall|i: int|
            0 <= i < e.len() ==> (#[trigger] e[i]).1 <= MAX_POINTER && suffix_at(d, e[i].1) == Some(
                e[i].0,
            ),
    ensures
        ({
            let d2 = register_question(d, c.labels, ls, ptr);
            let e2 = register_encoded(e, ls, ptr, c.labels.len() as int);
            &&& forall|i: int| 0 <= i < d2.len() ==> (#[trigger] d2[i]).1 < ptr + encode_name(c).len()
            &&& forall|i: int|
                0 <= i < e2.len() ==> (#[trigger] e2[i]).1 <= MAX_POINTER && suffix_at(d2, e2[i].1)
                    == Some(e2[i].0)
        }),
{
    let d2 = register_question(d, c.labels, ls, ptr);
    lemma_register_question_before(d, c, ls, ptr);
    lemma_register_own(d, c.labels, ls, ptr, c.labels.len() as int);
    assert(c.labels.take(c.labels.len() as int) =~= c.labels);
    let d1 = register_own(d, c.labels, ls, ptr, c.labels.len() as int);
    assert forall|mm: int|
        0 <= mm < c.labels.len() && ptr + labels_wire(ls.take(mm)).len()
            <= MAX_POINTER implies suffix_at(
        d2,
        (ptr + #[trigger] labels_wire(ls.take(mm)).len()) as u16,
    ) == Some(ls.skip(mm)) by {
        assert(c.labels.take(mm) =~= ls.take(mm));
        assert(labels_wire(c.labels.take(mm)) == labels_wire(ls.take(mm)));
        assert(c.labels.len() > 0);
    }
    assert forall|i: int| 0 <= i < e.len() implies (#[trigger] e[i]).1 <= MAX_POINTER && suffix_at(
        d2,
        e[i].1,
    ) == Some(e[i].0) by {
        assert(suffix_at(d, e[i].1) == Some(e[i].0));
        if c.labels.len() == 0 && ptr <= MAX_POINTER {
            lemma_suffix_at_push_keeps(d1, (ls, ptr as u16), e[i].1);
        }
    }
    lemma_register_encoded_found(e, ls, ptr, c.labels.len() as int, d2);
}

/// Reading the question section of an encoded response, from question `k` on,
/// gives the response's questions back, when the decoder's table `d` finds
/// every entry of the encoder's table and holds offsets before question `k`
/// only.
#[verifier::rlimit(40)]
proof fn lemma_questions_decode(r: ResponseView, b: Seq<u8>, k: int, d: TableView)
    requires
        0 <= k <= r.questions.len(),
        forall|i: int|
            0 <= i < r.questions.len() ==> (#[trigger] r.questions[i]).name.wf()
                && r.questions[i].name.pointer is None,
        header_bytes(r).len() == 12,
        section_bytes(r).len() <= b.len(),
        forall|x: int| 12 <= x < section_bytes(r).len() ==> b[x] == #[trigger] section_bytes(r)[x],
        forall|i: int| 0 <= i < d.len() ==> (#[trigger] d[i]).1 < section_state(r, k).1.len(),
        forall|i: int|
            0 <= i < section_state(r, k).0.len() ==> (#[trigger] section_state(r, k).0[i]).1
                <= MAX_POINTER && suffix_at(d, section_state(r, k).0[i].1) == Some(
                section_state(r, k).0[i].0,
            ),
    ensures
        decode_questions(
            b,
            section_state(r, k).1.len() as int,
            r.questions.len() - k,
            d,
            r.questions.take(k),
        ) == (r.questions, true),
    decreases r.questions.len() - k,
{
    let qs = r.questions;
    let n = qs.len() as int;
    let h = header_bytes(r);
    let qe = question_entries(qs);
    let w = section_bytes(r);
    let st = section_state(r, k);
    if k == n {
        assert(qs.take(k) =~= qs);
        return;
    }
    let q = qs[k];
    let ls = q.name.labels;
    let e = st.0;
    let ptr = st.1.len() as int;
    let c = compress_labels(ls, e);
    let tail = question_tail(q);
    let st2 = section_state(r, k + 1);
    assert(qe.take(k + 1).drop_last() =~= qe.take(k));
    assert(qe.take(k + 1).last() == qe[k]);
    assert(qe[k] == (ls, tail));
    assert(st2 == encode_entry(st, (ls, tail)));
    let len_c = encode_name(c).len() as int;
    assert(st2.1 == st.1 + encode_name(c) + tail);
    lemma_encode_entries_concat((seq![], h), qe.take(k + 1), qe.skip(k + 1));
    assert(qe.take(k + 1) + qe.skip(k + 1) =~= qe);
    lemma_entries_grow(st2, qe.skip(k + 1));
    lemma_entries_grow((seq![], h), qe.take(k));
    let qbytes = encode_name(c) + tail;
    assert(b.subrange(ptr, ptr + len_c + 4) =~= qbytes) by {
        assert forall|x: int| 0 <= x < len_c + 4 implies b.subrange(ptr, ptr + len_c + 4)[x]
            == qbytes[x] by {
            assert(w.subrange(0, st2.1.len() as int)[ptr + x] == st2.1[ptr + x]);
            assert(b[ptr + x] == w[ptr + x]);
        }
    }
    lemma_compress_longest(ls, e);
    assert(q.name.wf());
    assert forall|x: int| 0 <= x < c.labels.len() implies label_wf(#[trigger] c.labels[x]) by {
        if c.pointer is Some {
            assert(c.labels[x] == ls.take(c.labels.len() as int)[x]);
        }
        assert(c.labels[x] == ls[x]);
    }
    if c.pointer is Some {
        lemma_offset_of_some(e, ls.skip(c.labels.len() as int));
    } else {
        assert(ls.take(ls.len() as int) =~= ls);
    }
    assert(c.wf());
    lemma_question_read(b, ptr, c, q);
    let dq = QuestionView { name: c, qtype: q.qtype, qclass: q.qclass };
    if c.pointer is Some {
        let s = ls.skip(c.labels.len() as int);
        let i = choose|i: int|
            0 <= i < e.len() && (#[trigger] e[i]).0 == s && e[i].1 == offset_of(e, s)->Some_0;
        assert(suffix_at(d, e[i].1) == Some(e[i].0));
        assert(c.labels + s =~= ls);
    } else {
        assert(c.labels + Seq::<Seq<char>>::empty() =~= ls);
    }
    assert(expand_name(c, d) == Some(NameView { labels: ls, pointer: None }));
    assert(q.name == NameView { labels: ls, pointer: None });
    assert(encode_question(dq).len() == len_c + 4);
    assert(qs.take(k).push(q) =~= qs.take(k + 1));
    lemma_tables_step(d, e, ls, c, ptr);
    let d2 = register_question(d, c.labels, ls, ptr);
    assert(st2.0 == register_encoded(e, ls, ptr, c.labels.len() as int));
    lemma_questions_decode(r, b, k + 1, d2);
}

/// The decoder reads back the header fields that the encoder wrote.
proof fn lemma_header_read_back(r: ResponseView)
    requires
        !r.recursion_available,
        OpCode::spec_from_u8(r.opcode.spec_to_u8()) == r.opcode,
        r.opcode.spec_to_u8() < 16,
    ensures
        ({
            let h = header_bytes(r);
            let f = (h[2] - 128) as u8;
            &&& h.len() == 12
            &&& 128 <= h[2]
            &&& f < 128
            &&& h[3] < 16
            &&& OpCode::spec_from_u8(((f / 8) % 16) as u8) == r.opcode
            &&& ((f / 2) % 2 == 1) == r.truncation
            &&& (f % 2 == 1) == r.recursion_desired
        }),
{
    let h = header_bytes(r);
    let oc = r.opcode.spec_to_u8() as int;
    let low = (if r.authoritative_answer {
        4int
    } else {
        0
    }) + (if r.truncation {
        2int
    } else {
        0
    }) + (if r.recursion_desired {
        1int
    } else {
        0
    });
    assert(h[2] == (128 + (oc % 16) * 8 + low) as u8);
    assert(oc % 16 == oc);
    assert(0 <= low < 8);
    assert(128 + oc * 8 + low <= 255);
    let f = oc * 8 + low;
    assert(f / 8 == oc) by (nonlinear_arith)
        requires
            f == oc * 8 + low,
            0 <= low < 8,
            0 <= oc,
    ;
    assert((f / 2) % 2 == (low / 2) % 2) by (nonlinear_arith)
        requires
            f == oc * 8 + low,
            0 <= low < 8,
            0 <= oc,
    ;
    assert(f % 2 == low % 2) by (nonlinear_arith)
        requires
            f == oc * 8 + low,
            0 <= low < 8,
            0 <= oc,
    ;
}

/// Encoding, decoding and encoding again gives the same packet. Clear the
/// response bit of an encoded response and decode it as a query: it has the
/// response's id, opcode, flags and questions, so a response built again
/// from it encodes to exactly the same bytes, with no registered suffix
/// spelled out anew. This holds for responses whose names are well-formed
/// and carry no pointer, with fewer than 65536 questions, a 4-bit opcode
/// that decodes to itself, and no recursion-available bit (which the
/// decoder reads as a reserved bit).
#[verifier::rlimit(80)]
pub proof fn lemma_reencode_idempotent(r: ResponseView)
    requires
        names_expanded(r),
        forall|i: int| 0 <= i < r.questions.len() ==> (#[trigger] r.questions[i]).name.wf(),
        r.questions.len() < 0x1_0000,
        !r.recursion_available,
        OpCode::spec_from_u8(r.opcode.spec_to_u8()) == r.opcode,
        r.opcode.spec_to_u8() < 16,
    ensures
        ({
            let b = encode_response(r);
            let b2 = b.update(2, (b[2] - 128) as u8);
            &&& decode_query(b2) matches Ok(q) && q.questions == r.questions && q.id == r.id
                && q.opcode == r.opcode && q.truncation == r.truncation && q.recursion_desired
                == r.recursion_desired
            &&& encode_response(ResponseView { questions: decode_query(b2)->Ok_0.questions, ..r })
                == b
        }),
{
    let h = header_bytes(r);
    let qs = r.questions;
    let qe = question_entries(qs);
    let ae = answer_entries(r.answers);
    let w = encode_entries((seq![], h), qe).1;
    let b = encode_response(r);
    lemma_header_read_back(r);
    lemma_encode_entries_concat((seq![], h), qe, ae);
    lemma_entries_grow(encode_entries((seq![], h), qe), ae);
    lemma_entries_grow((seq![], h), qe);
    let b2 = b.update(2, (b[2] - 128) as u8);
    assert(b[2] == h[2] && b[3] == h[3] && b[0] == h[0] && b[1] == h[1]);
    assert(b[4] == h[4] && b[5] == h[5]);
    lemma_be16_round_trip((qs.len() % 0x1_0000) as u16);
    assert forall|x: int| 12 <= x < w.len() implies b2[x] == #[trigger] w[x] by {
        assert(b.subrange(0, w.len() as int)[x] == w[x]);
    }
    assert(qe.take(0) =~= Seq::<(Seq<Seq<char>>, Seq<u8>)>::empty());
    assert(qs.take(0) =~= Seq::<QuestionView>::empty());
    assert forall|i: int| 0 <= i < qs.len() implies (#[trigger] qs[i]).name.wf()
        && qs[i].name.pointer is None by {}
    assert(section_state(r, 0) == (Seq::<(Seq<Seq<char>>, u16)>::empty(), h));
    lemma_questions_decode(r, b2, 0, seq![]);
}

} // verus!
