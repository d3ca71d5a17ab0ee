//! The RESP data model: one full Redis request or reply, its canonical wire
//! encoding, and the per-command key schema that routing works from.

use vstd::prelude::*;

use crate::ascii::{dec_digits, int_digits, push_dec, push_dec_signed};

verus! {

broadcast use vstd::seq::group_seq_axioms, vstd::std_specs::vec::group_vec_axioms;

/// One full Redis request or reply.  Created by the RESP reader on ingress
/// and by the backend reader on egress; immutable thereafter.
#[derive(Debug, PartialEq, Eq)]
#[verifier::ext_equal]
pub enum Message {
    /// A simple string reply: `+text\r\n`.
    Simple(Vec<u8>),
    /// An error reply: `-text\r\n`.
    Error(Vec<u8>),
    /// An integer reply: `:n\r\n`.
    Integer(i64),
    /// A bulk string: `$len\r\n…\r\n`.
    Bulk(Vec<u8>),
    /// The null bulk string: `$-1\r\n`.
    Null,
    /// An array of messages: `*len\r\n…`.
    Array(Vec<Message>),
    /// The null array: `*-1\r\n`.
    NullArray,
    /// An inline command line: space-separated words, ended by CRLF.
    Inline(Vec<Vec<u8>>),
}

/// The canonical RESP encoding of a message.
pub open spec fn encoding(m: Message) -> Seq<u8>
    decreases m,
{
    match m {
        Message::Simple(s) => seq![43u8] + s@ + seq![13u8, 10u8],
        Message::Error(s) => seq![45u8] + s@ + seq![13u8, 10u8],
        Message::Integer(i) => seq![58u8] + int_digits(i as int) + seq![13u8, 10u8],
        Message::Bulk(b) => seq![36u8] + dec_digits(b@.len()) + seq![13u8, 10u8] + b@ + seq![
            13u8,
            10u8,
        ],
        Message::Null => seq![36u8, 45u8, 49u8, 13u8, 10u8],
        Message::Array(items) => seq![42u8] + dec_digits(items@.len()) + seq![13u8, 10u8]
            + encoding_seq(items@),
        Message::NullArray => seq![42u8, 45u8, 49u8, 13u8, 10u8],
        Message::Inline(words) => inline_line(words@) + seq![13u8, 10u8],
    }
}

/// The concatenated encodings of a message sequence, in order.
pub open spec fn encoding_seq(items: Seq<Message>) -> Seq<u8>
    decreases items,
{
    if items.len() == 0 {
        Seq::empty()
    } else {
        encoding(items[0]) + encoding_seq(items.drop_first())
    }
}

/// An inline command line: its words joined by single spaces.
pub open spec fn inline_line(words: Seq<Vec<u8>>) -> Seq<u8>
    decreases words,
{
    if words.len() == 0 {
        Seq::empty()
    } else if words.len() == 1 {
        words[0]@
    } else {
        words[0]@ + seq![32u8] + inline_line(words.drop_first())
    }
}

/// The encodings of a sequence concatenate one message at a time.
pub proof fn lemma_encoding_seq_push(items: Seq<Message>, m: Message)
    ensures
        encoding_seq(items.push(m)) == encoding_seq(items) + encoding(m),
    decreases items,
{
    if items.len() == 0 {
        assert(items.push(m).drop_first() =~= Seq::<Message>::empty());
        assert(items.push(m)[0] == m);
        assert(encoding_seq(items.push(m)) == encoding(m) + encoding_seq(
            items.push(m).drop_first(),
        ));
        assert(encoding_seq(items.push(m)) =~= encoding_seq(items) + encoding(m));
    } else {
        assert(items.push(m).drop_first() =~= items.drop_first().push(m));
        lemma_encoding_seq_push(items.drop_first(), m);
        assert(encoding_seq(items.push(m)) =~= encoding_seq(items) + encoding(m));
    }
}

/// Appends the bytes of `src` to `out`.
pub fn push_bytes(src: &[u8], out: &mut Vec<u8>)
    ensures
        final(out)@ == old(out)@ + src@,
{
    let n = src.len();
    let mut i: usize = 0;
    while i < n
        invariant
            i <= n,
            n == src@.len(),
            out@ =~= old(out)@ + src@.subrange(0, i as int),
        decreases n - i,
    {
        out.push(src[i]);
        proof {
            assert(out@ =~= old(out)@ + src@.subrange(0, (i + 1) as int));
        }
        i += 1;
    }
    proof {
        assert(src@.subrange(0, n as int) =~= src@);
    }
}

/// A fresh copy of a byte vector.
pub fn copy_bytes(v: &Vec<u8>) -> (r: Vec<u8>)
    ensures
        r@ == v@,
{
    let mut r: Vec<u8> = Vec::new();
    push_bytes(v.as_slice(), &mut r);
    proof {
        assert(r@ =~= v@);
    }
    r
}

/// Appends the canonical encoding of `m` to `out`, preserving what `out`
/// already holds.
#[verifier::loop_isolation(false)]
pub fn encode_message(m: &Message, out: &mut Vec<u8>)
    ensures
        final(out)@ == old(out)@ + encoding(*m),
    decreases *m,
{
    match m {
        Message::Simple(s) => {
            out.push(43);
            push_bytes(s.as_slice(), out);
            out.push(13);
            out.push(10);
            proof {
                assert(out@ =~= old(out)@ + encoding(*m));
            }
        },
        Message::Error(s) => {
            out.push(45);
            push_bytes(s.as_slice(), out);
            out.push(13);
            out.push(10);
            proof {
                assert(out@ =~= old(out)@ + encoding(*m));
            }
        },
        Message::Integer(i) => {
            out.push(58);
            push_dec_signed(*i, out);
            out.push(13);
            out.push(10);
            proof {
                assert(out@ =~= old(out)@ + encoding(*m));
            }
        },
        Message::Bulk(b) => {
            out.push(36);
            push_dec(b.len() as u64, out);
            out.push(13);
            out.push(10);
            push_bytes(b.as_slice(), out);
            out.push(13);
            out.push(10);
            proof {
                assert(out@ =~= old(out)@ + encoding(*m));
            }
        },
        Message::Null => {
            out.push(36);
            out.push(45);
            out.push(49);
            out.push(13);
            out.push(10);
            proof {
                assert(out@ =~= old(out)@ + encoding(*m));
            }
        },
        Message::Array(items) => {
            out.push(42);
            push_dec(items.len() as u64, out);
            out.push(13);
            out.push(10);
            let ghost header = out@;
            let n = items.len();
            let mut i: usize = 0;
            while i < n
                invariant
                    i <= n,
                    n == items@.len(),
                    out@ =~= header + encoding_seq(items@.subrange(0, i as int)),
                decreases n - i,
            {
                proof {
                    assert(decreases_to!(*m => m->Array_0));
                    assert(decreases_to!(m->Array_0 => (m->Array_0)@));
                    assert(decreases_to!((m->Array_0)@ => (m->Array_0)@[i as int]));
                    assert(m->Array_0 == *items);
                }
                encode_message(&items[i], out);
                proof {
                    assert(items@.subrange(0, (i + 1) as int) =~= items@.subrange(
                        0,
                        i as int,
                    ).push(items@[i as int]));
                    lemma_encoding_seq_push(items@.subrange(0, i as int), items@[i as int]);
                }
                i += 1;
            }
            proof {
                assert(items@.subrange(0, n as int) =~= items@);
                assert(out@ =~= old(out)@ + encoding(*m));
            }
        },
        Message::NullArray => {
            out.push(42);
            out.push(45);
            out.push(49);
            out.push(13);
            out.push(10);
            proof {
                assert(out@ =~= old(out)@ + encoding(*m));
            }
        },
        Message::Inline(words) => {
            let n = words.len();
            let mut i: usize = 0;
            while i < n
                invariant
                    i <= n,
                    n == words@.len(),
                    i == 0 ==> out@ == old(out)@,
                    0 < i < n ==> out@ =~= old(out)@ + inline_line(words@.subrange(0, i as int))
                        + seq![32u8],
                    0 < i && i == n ==> out@ =~= old(out)@ + inline_line(
                        words@.subrange(0, i as int),
                    ),
                decreases n - i,
            {
                push_bytes(words[i].as_slice(), out);
                if i + 1 < n {
                    out.push(32);
                }
                proof {
                    lemma_inline_line_take(words@, (i + 1) as int);
                    assert(words@.subrange(0, (i + 1) as int).drop_last() =~= words@.subrange(
                        0,
                        i as int,
                    ));
                }
                i += 1;
            }
            out.push(13);
            out.push(10);
            proof {
                if n == 0 {
                    assert(inline_line(words@) =~= Seq::<u8>::empty());
                }
                assert(words@.subrange(0, n as int) =~= words@);
                assert(out@ =~= old(out)@ + encoding(*m));
            }
        },
    }
}

/// An inline line grows by a space and a word at a time: for a non-empty
/// prefix, the line of `take(k)` is the line of `take(k - 1)`, a space when
/// another word precedes, then the word.
proof fn lemma_inline_line_take(words: Seq<Vec<u8>>, k: int)
    requires
        1 <= k <= words.len(),
    ensures
        k == 1 ==> inline_line(words.subrange(0, k)) == words[0]@,
        k > 1 ==> inline_line(words.subrange(0, k)) == inline_line(words.subrange(0, k - 1))
            + seq![32u8] + words[k - 1]@,
    decreases k,
{
    if k == 1 {
        assert(inline_line(words.subrange(0, 1)) =~= words[0]@);
    } else {
        lemma_inline_line_front(words.subrange(0, k));
        if k == 2 {
            assert(inline_line(words.subrange(0, k)) =~= inline_line(words.subrange(0, k - 1))
                + seq![32u8] + words[k - 1]@);
        } else {
            lemma_inline_line_front(words.subrange(0, k - 1));
            assert(words.subrange(0, k).drop_first() =~= words.subrange(1, k));
            assert(words.subrange(0, k - 1).drop_first() =~= words.subrange(1, k - 1));
            lemma_inline_line_take(words.subrange(1, k), k - 1);
            assert(words.subrange(1, k).subrange(0, k - 1) =~= words.subrange(1, k));
            assert(words.subrange(1, k).subrange(0, k - 2) =~= words.subrange(1, k - 1));
            assert(inline_line(words.subrange(0, k)) =~= inline_line(words.subrange(0, k - 1))
                + seq![32u8] + words[k - 1]@);
        }
    }
}

/// Unfolds one word off the front of a multi-word inline line.
proof fn lemma_inline_line_front(words: Seq<Vec<u8>>)
    requires
        words.len() >= 2,
    ensures
        inline_line(words) == words[0]@ + seq![32u8] + inline_line(words.drop_first()),
{
}

/// Encodes a vector of messages in order, as one byte string whose writer
/// flushes only once, at the end of the vector.
pub fn encode_all(msgs: &Vec<Message>) -> (r: Vec<u8>)
    ensures
        r@ == encoding_seq(msgs@),
{
    let mut out: Vec<u8> = Vec::new();
    let n = msgs.len();
    let mut i: usize = 0;
    while i < n
        invariant
            i <= n,
            n == msgs@.len(),
            out@ =~= encoding_seq(msgs@.subrange(0, i as int)),
        decreases n - i,
    {
        encode_message(&msgs[i], &mut out);
        proof {
            assert(msgs@.subrange(0, (i + 1) as int) =~= msgs@.subrange(0, i as int).push(
                msgs@[i as int],
            ));
            lemma_encoding_seq_push(msgs@.subrange(0, i as int), msgs@[i as int]);
        }
        i += 1;
    }
    proof {
        assert(msgs@.subrange(0, n as int) =~= msgs@);
    }
    out
}

/// Encodings agree elementwise, so the concatenated encodings agree.
pub proof fn lemma_encoding_seq_congruence(a: Seq<Message>, b: Seq<Message>)
    requires
        a.len() == b.len(),
        forall|i: int| 0 <= i < a.len() ==> encoding(a[i]) == encoding(b[i]),
    ensures
        encoding_seq(a) == encoding_seq(b),
    decreases a,
{
    if a.len() != 0 {
        lemma_encoding_seq_congruence(a.drop_first(), b.drop_first());
    }
}

/// Words with equal bytes join into equal inline lines.
pub proof fn lemma_inline_line_congruence(a: Seq<Vec<u8>>, b: Seq<Vec<u8>>)
    requires
        a.len() == b.len(),
        forall|i: int| 0 <= i < a.len() ==> a[i]@ == b[i]@,
    ensures
        inline_line(a) == inline_line(b),
    decreases a,
{
    if a.len() > 1 {
        lemma_inline_line_congruence(a.drop_first(), b.drop_first());
    }
}

/// A fresh copy of a message, with the same canonical encoding — the same
/// bytes on the wire — as the original.
#[verifier::loop_isolation(false)]
pub fn clone_message(m: &Message) -> (r: Message)
    ensures
        encoding(r) == encoding(*m),
    decreases *m,
{
    match m {
        Message::Simple(s) => {
            let r = Message::Simple(copy_bytes(s));
            proof {
                assert(encoding(r) =~= encoding(*m));
            }
            r
        },
        Message::Error(s) => {
            let r = Message::Error(copy_bytes(s));
            proof {
                assert(encoding(r) =~= encoding(*m));
            }
            r
        },
        Message::Integer(i) => Message::Integer(*i),
        Message::Bulk(b) => {
            let r = Message::Bulk(copy_bytes(b));
            proof {
                assert(encoding(r) =~= encoding(*m));
            }
            r
        },
        Message::Null => Message::Null,
        Message::Array(items) => {
            let n = items.len();
            let mut copy: Vec<Message> = Vec::new();
            let mut i: usize = 0;
            while i < n
                invariant
                    i <= n,
                    n == items@.len(),
                    copy@.len() == i,
                    forall|j: int| 0 <= j < i ==> encoding(copy@[j]) == encoding(items@[j]),
                decreases n - i,
            {
                proof {
                    assert(decreases_to!(*m => m->Array_0));
                    assert(decreases_to!(m->Array_0 => (m->Array_0)@));
                    assert(decreases_to!((m->Array_0)@ => (m->Array_0)@[i as int]));
                    assert(m->Array_0 == *items);
                }
                copy.push(clone_message(&items[i]));
                i += 1;
            }
            let r = Message::Array(copy);
            proof {
                lemma_encoding_seq_congruence(r->Array_0@, items@);
                assert(encoding(r) =~= encoding(*m));
            }
            r
        },
        Message::NullArray => Message::NullArray,
        Message::Inline(words) => {
            let n = words.len();
            let mut copy: Vec<Vec<u8>> = Vec::new();
            let mut i: usize = 0;
            while i < n
                invariant
                    i <= n,
                    n == words@.len(),
                    copy@.len() == i,
                    forall|j: int| 0 <= j < i ==> copy@[j]@ == words@[j]@,
                decreases n - i,
            {
                copy.push(copy_bytes(&words[i]));
                i += 1;
            }
            let r = Message::Inline(copy);
            proof {
                lemma_inline_line_congruence(r->Inline_0@, words@);
                assert(encoding(r) =~= encoding(*m));
            }
            r
        },
    }
}

} // verus!
