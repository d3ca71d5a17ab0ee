//! Reading RESP off the wire: frames one message at a time out of a byte
//! buffer, in the canonical form the encoder writes.
//!
//! Both directions are proved.  Soundness: whatever parses as `Complete`
//! re-encodes to exactly the bytes consumed, so a proxy that frames with
//! this parser and writes with the encoder moves bytes through unchanged.
//! Completeness: wherever a wire-well-formed message sits in the buffer,
//! the answer is `Complete`; `Incomplete` is answered only when no message
//! is present yet, and `Malformed` only when no extension of the buffer
//! can ever place one here.

use vstd::prelude::*;

use crate::ascii::dec_digits;
use crate::conf::{dec_value, is_digits, lemma_dec_value_nonneg, lemma_dec_value_prefix};
use crate::message::{encoding, encoding_seq, inline_line, lemma_encoding_seq_push, Message};

verus! {

broadcast use vstd::seq::group_seq_axioms, vstd::std_specs::vec::group_vec_axioms;

/// What one framing attempt found at a position.
pub enum ParseOutcome {
    /// A full message, and the position just past it.
    Complete(Message, usize),
    /// The buffer ends inside a message: read more and retry.
    Incomplete,
    /// No extension of these bytes can place a message here.
    Malformed,
}

/// Bytes that can never open an inline command line: the typed tags, the
/// line terminators, and the word separator.
pub open spec fn reserved_first(b: u8) -> bool {
    b == 43 || b == 45 || b == 58 || b == 36 || b == 42 || b == 13 || b == 10 || b == 32
}

/// A line payload free of CR and LF.
pub open spec fn line_ok(s: Seq<u8>) -> bool {
    forall|i: int| 0 <= i < s.len() ==> (#[trigger] s[i]) != 13 && s[i] != 10
}

/// The wire discipline: what may actually travel on the socket.  Simple
/// and error lines carry no CR or LF; an inline line is non-empty, free of
/// CR and LF, and opens with a byte no typed message uses; array elements
/// obey the same rules.
pub open spec fn wire_ok(m: Message) -> bool
    decreases m,
{
    match m {
        Message::Simple(s) => line_ok(s@),
        Message::Error(s) => line_ok(s@),
        Message::Integer(_) => true,
        Message::Bulk(_) => true,
        Message::Null => true,
        Message::NullArray => true,
        Message::Array(items) => forall|i: int|
            0 <= i < items@.len() ==> wire_ok(#[trigger] items@[i]),
        Message::Inline(words) => {
            let line = inline_line(words@);
            line.len() > 0 && !reserved_first(line[0]) && line_ok(line)
        },
    }
}

/// Whether a wire-well-formed message sits at `pos`.
pub open spec fn starts_wire_message(bytes: Seq<u8>, pos: int) -> bool {
    exists|m: Message, end: int|
        #![trigger encoding(m), bytes.subrange(pos, end)]
        {
            &&& pos < end <= bytes.len()
            &&& wire_ok(m)
            &&& encoding(m) == bytes.subrange(pos, end)
        }
}

/// Whether no extension of the bytes can ever place a message at `pos`.
pub open spec fn no_wire_message_ever(bytes: Seq<u8>, pos: int) -> bool {
    forall|more: Seq<u8>| !starts_wire_message(#[trigger] (bytes + more), pos)
}

/// The full framing contract: a `Complete` answer consumed exactly the
/// encoding of a wire-well-formed message; a message present in the buffer
/// is always found; `Malformed` claims that no extension helps.
pub open spec fn outcome_ok(r: ParseOutcome, bytes: Seq<u8>, pos: int) -> bool {
    &&& (r matches ParseOutcome::Complete(m, end) ==> {
        &&& pos < end <= bytes.len()
        &&& wire_ok(m)
        &&& encoding(m) == bytes.subrange(pos, end as int)
    })
    &&& (starts_wire_message(bytes, pos) ==> r is Complete)
    &&& (r is Malformed ==> no_wire_message_ever(bytes, pos))
}

/// A buffer that can never hold a message also holds none now.
proof fn lemma_never_means_not_now(bytes: Seq<u8>, pos: int)
    requires
        no_wire_message_ever(bytes, pos),
    ensures
        !starts_wire_message(bytes, pos),
{
    assert(bytes + Seq::<u8>::empty() =~= bytes);
    assert(!starts_wire_message(bytes + Seq::<u8>::empty(), pos));
}

// ------------------------------------------------------------------
// digit strings
// ------------------------------------------------------------------

/// Canonical digit strings are non-empty, all digits, and open with a
/// non-zero digit unless they are the single digit `0`.
proof fn lemma_dec_digits_shape(n: nat)
    ensures
        dec_digits(n).len() >= 1,
        is_digits(dec_digits(n)),
        n >= 1 ==> dec_digits(n)[0] != 48,
        n == 0 ==> dec_digits(n) =~= seq![48u8],
        n < 10 ==> dec_digits(n).len() == 1,
    decreases n,
{
    if n < 10 {
    } else {
        lemma_dec_digits_shape(n / 10);
        let d = dec_digits(n);
        assert(d == dec_digits(n / 10).push((48 + n % 10) as u8));
        assert(d[0] == dec_digits(n / 10)[0]);
        assert forall|i: int| 0 <= i < d.len() implies 48 <= (#[trigger] d[i]) <= 57 by {
            if i < d.len() - 1 {
                assert(d[i] == dec_digits(n / 10)[i]);
            }
        }
    }
}

/// A value rebuilt from its own canonical digits is itself.
proof fn lemma_dec_digits_value(n: nat)
    ensures
        dec_value(dec_digits(n)) == n,
    decreases n,
{
    if n < 10 {
        let d = dec_digits(n);
        assert(d == seq![(48 + n) as u8]);
        assert(d.drop_last() =~= Seq::<u8>::empty());
        assert(dec_value(d.drop_last()) == 0);
        assert(dec_value(d) == n);
    } else {
        lemma_dec_digits_value(n / 10);
        let d = dec_digits(n);
        assert(d == dec_digits(n / 10).push((48 + n % 10) as u8));
        assert(d.drop_last() =~= dec_digits(n / 10));
        assert(dec_value(d) == dec_value(dec_digits(n / 10)) * 10 + ((48 + n % 10) as u8 - 48));
    }
}

/// Somewhere at `pos` a digit run already exceeds the 64-bit range.
pub open spec fn too_big(bytes: Seq<u8>, pos: int) -> bool {
    exists|e: int|
        {
            &&& pos < e <= bytes.len()
            &&& is_digits(#[trigger] bytes.subrange(pos, e))
            &&& dec_value(bytes.subrange(pos, e)) > u64::MAX
        }
}

/// Two canonical digit runs that open at the same position and are each
/// followed by a non-digit cover the same bytes and carry the same value.
proof fn lemma_digit_run_unique(bytes: Seq<u8>, a: int, b1: int, b2: int, v1: nat, v2: nat)
    requires
        0 <= a <= b1 <= bytes.len(),
        a <= b2 <= bytes.len(),
        dec_digits(v1) == bytes.subrange(a, b1),
        dec_digits(v2) == bytes.subrange(a, b2),
        b1 < bytes.len() ==> !(48 <= bytes[b1] <= 57),
        b2 < bytes.len() ==> !(48 <= bytes[b2] <= 57),
        b1 < bytes.len() || b2 < bytes.len() || b1 == b2,
    ensures
        b1 == b2,
        v1 == v2,
{
    lemma_dec_digits_shape(v1);
    lemma_dec_digits_shape(v2);
    assert(dec_digits(v1).len() == b1 - a);
    assert(dec_digits(v2).len() == b2 - a);
    assert(a < b1 && a < b2);
    if b1 < b2 {
        assert(bytes[b1] == dec_digits(v2)[b1 - a]);
        assert(48 <= dec_digits(v2)[b1 - a] <= 57);
        assert(false);
    }
    if b2 < b1 {
        assert(bytes[b2] == dec_digits(v1)[b2 - a]);
        assert(48 <= dec_digits(v1)[b2 - a] <= 57);
        assert(false);
    }
    assert(dec_digits(v1) == dec_digits(v2));
    lemma_dec_digits_value(v1);
    lemma_dec_digits_value(v2);
    assert(dec_value(dec_digits(v1)) == dec_value(dec_digits(v2)));
}

/// A digit run whose value already left the 64-bit range refutes any
/// canonical run at the same position that is followed by a non-digit and
/// whose value stays within it.
proof fn lemma_digit_run_bounded(bytes: Seq<u8>, a: int, b: int, v: nat)
    requires
        0 <= a <= b <= bytes.len(),
        dec_digits(v) == bytes.subrange(a, b),
        b < bytes.len() ==> !(48 <= bytes[b] <= 57),
        too_big(bytes, a),
    ensures
        v > u64::MAX,
{
    lemma_dec_digits_shape(v);
    assert(dec_digits(v).len() == b - a);
    let e = choose|e: int|
        {
            &&& a < e <= bytes.len()
            &&& is_digits(#[trigger] bytes.subrange(a, e))
            &&& dec_value(bytes.subrange(a, e)) > u64::MAX
        };
    if b < e {
        // the run would end inside the all-digit region
        assert(48 <= bytes.subrange(a, e)[b - a] <= 57);
        assert(48 <= bytes[b] <= 57);
        assert(b < bytes.len());
        assert(false);
    } else {
        // the huge region is a prefix of the run
        let run = bytes.subrange(a, b);
        assert(is_digits(run));
        assert(run.subrange(0, e - a) =~= bytes.subrange(a, e));
        lemma_dec_value_prefix(run, e - a);
        lemma_dec_digits_value(v);
        assert(dec_value(run) >= dec_value(bytes.subrange(a, e)));
    }
}

// ------------------------------------------------------------------
// what an encoding looks like, byte by byte
// ------------------------------------------------------------------

/// The first byte of a wire-well-formed encoding names its class.
proof fn lemma_first_byte(m: Message)
    requires
        wire_ok(m),
    ensures
        encoding(m).len() >= 2,
        m is Simple ==> encoding(m)[0] == 43,
        m is Error ==> encoding(m)[0] == 45,
        m is Integer ==> encoding(m)[0] == 58,
        m is Bulk ==> encoding(m)[0] == 36,
        m is Null ==> encoding(m)[0] == 36,
        m is Array ==> encoding(m)[0] == 42,
        m is NullArray ==> encoding(m)[0] == 42,
        m is Inline ==> !reserved_first(encoding(m)[0]),
{
    match m {
        Message::Integer(i) => {
            lemma_dec_digits_shape((if i < 0 {
                -(i as int)
            } else {
                i as int
            }) as nat);
        },
        Message::Bulk(b) => {
            lemma_dec_digits_shape(b@.len());
        },
        Message::Array(items) => {
            lemma_dec_digits_shape(items@.len());
        },
        Message::Inline(words) => {
            assert(encoding(m)[0] == inline_line(words@)[0]);
        },
        _ => {},
    }
}

/// A wire-well-formed message found in the bytes has the class its first
/// byte announces.
proof fn lemma_class_from_byte(m: Message, bytes: Seq<u8>, pos: int, end: int)
    requires
        wire_ok(m),
        0 <= pos < end <= bytes.len(),
        encoding(m) == bytes.subrange(pos, end),
    ensures
        end - pos >= 2,
        bytes[pos] == 43 ==> m is Simple,
        bytes[pos] == 45 ==> m is Error,
        bytes[pos] == 58 ==> m is Integer,
        bytes[pos] == 36 ==> m is Bulk || m is Null,
        bytes[pos] == 42 ==> m is Array || m is NullArray,
        !reserved_first(bytes[pos]) ==> m is Inline,
        bytes[pos] != 13 && bytes[pos] != 10 && bytes[pos] != 32,
{
    lemma_first_byte(m);
    assert(encoding(m).len() == end - pos);
    assert(encoding(m)[0] == bytes[pos]);
}

/// Destructures a line-shaped encoding (simple, error, or inline): a clean
/// payload, then CRLF.  `ps` is where the payload starts.
proof fn lemma_invert_line(m: Message, bytes: Seq<u8>, pos: int, end: int, ps: int)
    requires
        wire_ok(m),
        0 <= pos < end <= bytes.len(),
        encoding(m) == bytes.subrange(pos, end),
        (m is Simple || m is Error) ==> ps == pos + 1,
        m is Inline ==> ps == pos,
        m is Simple || m is Error || m is Inline,
    ensures
        ps <= end - 2,
        m is Inline ==> ps < end - 2,
        bytes[end - 2] == 13,
        bytes[end - 1] == 10,
        forall|t: int| ps <= t < end - 2 ==> (#[trigger] bytes[t]) != 13 && bytes[t] != 10,
{
    assert(encoding(m).len() == end - pos);
    match m {
        Message::Simple(s) => {
            assert(end - pos == 3 + s@.len());
            assert forall|t: int| ps <= t < end - 2 implies (#[trigger] bytes[t]) != 13
                && bytes[t] != 10 by {
                assert(bytes[t] == encoding(m)[t - pos]);
                assert(encoding(m)[t - pos] == s@[t - pos - 1]);
            }
            assert(bytes[end - 2] == encoding(m)[end - 2 - pos]);
            assert(bytes[end - 1] == encoding(m)[end - 1 - pos]);
        },
        Message::Error(s) => {
            assert(end - pos == 3 + s@.len());
            assert forall|t: int| ps <= t < end - 2 implies (#[trigger] bytes[t]) != 13
                && bytes[t] != 10 by {
                assert(bytes[t] == encoding(m)[t - pos]);
                assert(encoding(m)[t - pos] == s@[t - pos - 1]);
            }
            assert(bytes[end - 2] == encoding(m)[end - 2 - pos]);
            assert(bytes[end - 1] == encoding(m)[end - 1 - pos]);
        },
        Message::Inline(words) => {
            let line = inline_line(words@);
            assert(end - pos == line.len() + 2);
            assert forall|t: int| ps <= t < end - 2 implies (#[trigger] bytes[t]) != 13
                && bytes[t] != 10 by {
                assert(bytes[t] == encoding(m)[t - pos]);
                assert(encoding(m)[t - pos] == line[t - pos]);
            }
            assert(bytes[end - 2] == encoding(m)[end - 2 - pos]);
            assert(bytes[end - 1] == encoding(m)[end - 1 - pos]);
        },
        _ => {},
    }
}

/// Destructures an integer encoding: an optional sign, the canonical
/// digits of the magnitude, then CRLF.
proof fn lemma_invert_integer(m: Message, bytes: Seq<u8>, pos: int, end: int)
    requires
        wire_ok(m),
        m is Integer,
        0 <= pos < end <= bytes.len(),
        encoding(m) == bytes.subrange(pos, end),
    ensures
        bytes[end - 2] == 13,
        bytes[end - 1] == 10,
        m->Integer_0 < 0 ==> end - pos >= 5 && bytes[pos + 1] == 45 && dec_digits(
            (-(m->Integer_0 as int)) as nat,
        ) =~= bytes.subrange(pos + 2, end - 2),
        m->Integer_0 >= 0 ==> end - pos >= 4 && dec_digits((m->Integer_0 as int) as nat)
            =~= bytes.subrange(pos + 1, end - 2),
        m->Integer_0 >= 0 ==> 48 <= bytes[pos + 1] <= 57,
{
    assert(encoding(m).len() == end - pos);
    let i = m->Integer_0;
    if i < 0 {
        let d = dec_digits((-(i as int)) as nat);
        lemma_dec_digits_shape((-(i as int)) as nat);
        assert(end - pos == 1 + 1 + d.len() + 2);
        assert(bytes[pos + 1] == encoding(m)[1]);
        assert forall|t: int| pos + 2 <= t < end - 2 implies bytes[t] == d[t - pos - 2] by {
            assert(bytes[t] == encoding(m)[t - pos]);
        }
        assert(d =~= bytes.subrange(pos + 2, end - 2));
        assert(bytes[end - 2] == encoding(m)[end - 2 - pos]);
        assert(bytes[end - 1] == encoding(m)[end - 1 - pos]);
    } else {
        let d = dec_digits((i as int) as nat);
        lemma_dec_digits_shape((i as int) as nat);
        assert(end - pos == 1 + d.len() + 2);
        assert forall|t: int| pos + 1 <= t < end - 2 implies bytes[t] == d[t - pos - 1] by {
            assert(bytes[t] == encoding(m)[t - pos]);
        }
        assert(d =~= bytes.subrange(pos + 1, end - 2));
        assert(bytes[pos + 1] == d[0]);
        assert(bytes[end - 2] == encoding(m)[end - 2 - pos]);
        assert(bytes[end - 1] == encoding(m)[end - 1 - pos]);
    }
}

/// Destructures a bulk encoding: the canonical length digits, CRLF, the
/// payload, CRLF — or the fixed null bulk.
proof fn lemma_invert_bulk(m: Message, bytes: Seq<u8>, pos: int, end: int)
    requires
        wire_ok(m),
        m is Bulk || m is Null,
        0 <= pos < end <= bytes.len(),
        encoding(m) == bytes.subrange(pos, end),
    ensures
        m is Null ==> end == pos + 5 && bytes[pos + 1] == 45 && bytes[pos + 2] == 49 && bytes[pos
            + 3] == 13 && bytes[pos + 4] == 10,
        m is Bulk ==> {
            let pl = (m->Bulk_0)@.len() as int;
            let dl = dec_digits((m->Bulk_0)@.len()).len() as int;
            &&& end == pos + 1 + dl + 2 + pl + 2
            &&& dec_digits((m->Bulk_0)@.len()) =~= bytes.subrange(pos + 1, pos + 1 + dl)
            &&& bytes[pos + 1 + dl] == 13
            &&& bytes[pos + 2 + dl] == 10
            &&& bytes[end - 2] == 13
            &&& bytes[end - 1] == 10
        },
{
    assert(encoding(m).len() == end - pos);
    match m {
        Message::Null => {
            assert(end - pos == 5);
            assert(bytes[pos + 1] == encoding(m)[1]);
            assert(bytes[pos + 2] == encoding(m)[2]);
            assert(bytes[pos + 3] == encoding(m)[3]);
            assert(bytes[pos + 4] == encoding(m)[4]);
        },
        Message::Bulk(b) => {
            let d = dec_digits(b@.len());
            lemma_dec_digits_shape(b@.len());
            let dl = d.len() as int;
            let pl = b@.len() as int;
            assert(end - pos == 1 + dl + 2 + pl + 2);
            assert forall|t: int| pos + 1 <= t < pos + 1 + dl implies bytes[t] == d[t - pos
                - 1] by {
                assert(bytes[t] == encoding(m)[t - pos]);
            }
            assert(d =~= bytes.subrange(pos + 1, pos + 1 + dl));
            assert(bytes[pos + 1 + dl] == encoding(m)[1 + dl]);
            assert(bytes[pos + 2 + dl] == encoding(m)[2 + dl]);
            assert(bytes[end - 2] == encoding(m)[end - 2 - pos]);
            assert(bytes[end - 1] == encoding(m)[end - 1 - pos]);
        },
        _ => {},
    }
}

/// Destructures an array encoding: the canonical count digits, CRLF, then
/// the concatenated element encodings — or the fixed null array.
proof fn lemma_invert_array(m: Message, bytes: Seq<u8>, pos: int, end: int)
    requires
        wire_ok(m),
        m is Array || m is NullArray,
        0 <= pos < end <= bytes.len(),
        encoding(m) == bytes.subrange(pos, end),
    ensures
        m is NullArray ==> end == pos + 5 && bytes[pos + 1] == 45 && bytes[pos + 2] == 49
            && bytes[pos + 3] == 13 && bytes[pos + 4] == 10,
        m is Array ==> {
            let cd = dec_digits((m->Array_0)@.len()).len() as int;
            &&& end >= pos + 1 + cd + 2
            &&& dec_digits((m->Array_0)@.len()) =~= bytes.subrange(pos + 1, pos + 1 + cd)
            &&& bytes[pos + 1 + cd] == 13
            &&& bytes[pos + 2 + cd] == 10
            &&& encoding_seq((m->Array_0)@) =~= bytes.subrange(pos + 3 + cd, end)
            &&& forall|i: int|
                0 <= i < (m->Array_0)@.len() ==> wire_ok(#[trigger] (m->Array_0)@[i])
        },
{
    assert(encoding(m).len() == end - pos);
    match m {
        Message::NullArray => {
            assert(end - pos == 5);
            assert(bytes[pos + 1] == encoding(m)[1]);
            assert(bytes[pos + 2] == encoding(m)[2]);
            assert(bytes[pos + 3] == encoding(m)[3]);
            assert(bytes[pos + 4] == encoding(m)[4]);
        },
        Message::Array(items) => {
            let d = dec_digits(items@.len());
            lemma_dec_digits_shape(items@.len());
            let cd = d.len() as int;
            assert(end - pos == 1 + cd + 2 + encoding_seq(items@).len());
            assert forall|t: int| pos + 1 <= t < pos + 1 + cd implies bytes[t] == d[t - pos
                - 1] by {
                assert(bytes[t] == encoding(m)[t - pos]);
            }
            assert(d =~= bytes.subrange(pos + 1, pos + 1 + cd));
            assert(bytes[pos + 1 + cd] == encoding(m)[1 + cd]);
            assert(bytes[pos + 2 + cd] == encoding(m)[2 + cd]);
            assert forall|t: int| pos + 3 + cd <= t < end implies bytes[t] == encoding_seq(
                items@,
            )[t - pos - 3 - cd] by {
                assert(bytes[t] == encoding(m)[t - pos]);
            }
        },
        _ => {},
    }
}

// ------------------------------------------------------------------
// the grammar is deterministic
// ------------------------------------------------------------------

/// Where the `j`-th element of a concatenated element run starts.
pub open spec fn seq_enc_off(items: Seq<Message>, start: int, j: int) -> int
    decreases j,
{
    if j <= 0 {
        start
    } else {
        seq_enc_off(items, start, j - 1) + encoding(items[j - 1]).len()
    }
}

/// Offsets shift with the head element.
proof fn lemma_off_shift(items: Seq<Message>, start: int, j: int)
    requires
        1 <= j <= items.len(),
        items.len() >= 1,
    ensures
        seq_enc_off(items, start, j) == seq_enc_off(
            items.drop_first(),
            start + encoding(items[0]).len(),
            j - 1,
        ),
    decreases j,
{
    if j == 1 {
        assert(seq_enc_off(items, start, 0) == start);
        assert(seq_enc_off(items, start, 1) == start + encoding(items[0]).len());
        assert(seq_enc_off(items.drop_first(), start + encoding(items[0]).len() as int, 0)
            == start + encoding(items[0]).len());
    } else {
        lemma_off_shift(items, start, j - 1);
        assert(items.drop_first()[j - 2] == items[j - 1]);
        assert(seq_enc_off(items, start, j) == seq_enc_off(items, start, j - 1) + encoding(
            items[j - 1],
        ).len());
        assert(seq_enc_off(items.drop_first(), start + encoding(items[0]).len() as int, j - 1)
            == seq_enc_off(items.drop_first(), start + encoding(items[0]).len() as int, j - 2)
            + encoding(items.drop_first()[j - 2]).len());
    }
}

/// The run of all elements ends where the concatenation says.
proof fn lemma_off_total(items: Seq<Message>, start: int)
    ensures
        seq_enc_off(items, start, items.len() as int) == start + encoding_seq(items).len(),
    decreases items,
{
    if items.len() > 0 {
        lemma_off_total(items.drop_first(), start + encoding(items[0]).len() as int);
        lemma_off_shift(items, start, items.len() as int);
    }
}

/// A concatenation that equals a slice splits into the two sub-slices.
proof fn lemma_concat_tail(a: Seq<u8>, rest: Seq<u8>, bytes: Seq<u8>, start: int, f: int)
    requires
        0 <= start,
        start + a.len() + rest.len() == f,
        f <= bytes.len(),
        a + rest == bytes.subrange(start, f),
    ensures
        a =~= bytes.subrange(start, start + a.len()),
        rest =~= bytes.subrange(start + a.len(), f),
{
    let l0 = a.len() as int;
    assert forall|t: int| 0 <= t < l0 implies a[t] == bytes.subrange(start, start + l0)[t] by {
        assert(a[t] == (a + rest)[t]);
        assert((a + rest)[t] == bytes.subrange(start, f)[t]);
    }
    assert forall|t: int| 0 <= t < rest.len() implies rest[t] == bytes.subrange(
        start + l0,
        f,
    )[t] by {
        assert(rest[t] == (a + rest)[l0 + t]);
        assert((a + rest)[l0 + t] == bytes.subrange(start, f)[l0 + t]);
    }
}

/// Each element of a concatenated run is a slice of the bytes, at its
/// offset.
proof fn lemma_element_slice(items: Seq<Message>, bytes: Seq<u8>, start: int, f: int, j: int)
    requires
        0 <= start <= f <= bytes.len(),
        encoding_seq(items) == bytes.subrange(start, f),
        0 <= j < items.len(),
    ensures
        start <= seq_enc_off(items, start, j),
        seq_enc_off(items, start, j + 1) == seq_enc_off(items, start, j) + encoding(
            items[j],
        ).len(),
        seq_enc_off(items, start, j + 1) <= f,
        encoding(items[j]) == bytes.subrange(
            seq_enc_off(items, start, j),
            seq_enc_off(items, start, j + 1),
        ),
    decreases j,
{
    let l0 = encoding(items[0]).len() as int;
    assert(encoding_seq(items) == encoding(items[0]) + encoding_seq(items.drop_first()));
    assert(f - start == encoding_seq(items).len());
    assert(start + l0 <= f);
    lemma_concat_tail(encoding(items[0]), encoding_seq(items.drop_first()), bytes, start, f);
    assert(encoding(items[0]) =~= bytes.subrange(start, start + l0));
    assert(encoding_seq(items.drop_first()) =~= bytes.subrange(start + l0, f));
    if j == 0 {
    } else {
        lemma_element_slice(items.drop_first(), bytes, start + l0, f, j - 1);
        lemma_off_shift(items, start, j);
        lemma_off_shift(items, start, j + 1);
        assert(items.drop_first()[j - 1] == items[j]);
    }
}

/// Two wire-well-formed messages occupying the same start occupy the same
/// bytes: the wire grammar is prefix-free.
proof fn lemma_wire_unique(m1: Message, m2: Message, bytes: Seq<u8>, pos: int, e1: int, e2: int)
    requires
        wire_ok(m1),
        wire_ok(m2),
        0 <= pos < e1 <= bytes.len(),
        pos < e2 <= bytes.len(),
        encoding(m1) == bytes.subrange(pos, e1),
        encoding(m2) == bytes.subrange(pos, e2),
    ensures
        e1 == e2,
    decreases m1,
{
    lemma_class_from_byte(m1, bytes, pos, e1);
    lemma_class_from_byte(m2, bytes, pos, e2);
    let b = bytes[pos];
    if b == 43 || b == 45 || !reserved_first(b) {
        let ps = if b == 43 || b == 45 {
            pos + 1
        } else {
            pos as int
        };
        lemma_invert_line(m1, bytes, pos, e1, ps);
        lemma_invert_line(m2, bytes, pos, e2, ps);
        if e1 < e2 {
            assert(ps <= e1 - 2 < e2 - 2);
            assert(bytes[e1 - 2] != 13);
            assert(false);
        }
        if e2 < e1 {
            assert(ps <= e2 - 2 < e1 - 2);
            assert(bytes[e2 - 2] != 13);
            assert(false);
        }
    } else if b == 58 {
        lemma_invert_integer(m1, bytes, pos, e1);
        lemma_invert_integer(m2, bytes, pos, e2);
        let i1 = m1->Integer_0;
        let i2 = m2->Integer_0;
        if i1 < 0 && i2 >= 0 {
            assert(bytes[pos + 1] == 45);
            assert(false);
        }
        if i1 >= 0 && i2 < 0 {
            assert(bytes[pos + 1] == 45);
            assert(false);
        }
        let ds = if i1 < 0 {
            pos + 2
        } else {
            pos + 1
        };
        let n1 = (if i1 < 0 {
            -(i1 as int)
        } else {
            i1 as int
        }) as nat;
        let n2 = (if i2 < 0 {
            -(i2 as int)
        } else {
            i2 as int
        }) as nat;
        lemma_digit_run_unique(bytes, ds, e1 - 2, e2 - 2, n1, n2);
    } else if b == 36 {
        lemma_invert_bulk(m1, bytes, pos, e1);
        lemma_invert_bulk(m2, bytes, pos, e2);
        lemma_dec_digits_shape((if m1 is Bulk {
            (m1->Bulk_0)@.len()
        } else {
            0
        }));
        lemma_dec_digits_shape((if m2 is Bulk {
            (m2->Bulk_0)@.len()
        } else {
            0
        }));
        if m1 is Bulk && m2 is Null {
            assert(bytes[pos + 1] == dec_digits((m1->Bulk_0)@.len())[0]);
            assert(48 <= bytes[pos + 1] <= 57);
            assert(false);
        }
        if m1 is Null && m2 is Bulk {
            assert(bytes[pos + 1] == dec_digits((m2->Bulk_0)@.len())[0]);
            assert(48 <= bytes[pos + 1] <= 57);
            assert(false);
        }
        if m1 is Bulk && m2 is Bulk {
            let l1 = (m1->Bulk_0)@.len();
            let l2 = (m2->Bulk_0)@.len();
            let d1 = dec_digits(l1).len() as int;
            let d2 = dec_digits(l2).len() as int;
            lemma_digit_run_unique(bytes, pos + 1, pos + 1 + d1, pos + 1 + d2, l1, l2);
        }
    } else {
        assert(b == 42);
        lemma_invert_array(m1, bytes, pos, e1);
        lemma_invert_array(m2, bytes, pos, e2);
        lemma_dec_digits_shape((if m1 is Array {
            (m1->Array_0)@.len()
        } else {
            0
        }));
        lemma_dec_digits_shape((if m2 is Array {
            (m2->Array_0)@.len()
        } else {
            0
        }));
        if m1 is Array && m2 is NullArray {
            assert(bytes[pos + 1] == dec_digits((m1->Array_0)@.len())[0]);
            assert(48 <= bytes[pos + 1] <= 57);
            assert(false);
        }
        if m1 is NullArray && m2 is Array {
            assert(bytes[pos + 1] == dec_digits((m2->Array_0)@.len())[0]);
            assert(48 <= bytes[pos + 1] <= 57);
            assert(false);
        }
        if m1 is Array && m2 is Array {
            let items1 = (m1->Array_0)@;
            let items2 = (m2->Array_0)@;
            let c1 = dec_digits(items1.len()).len() as int;
            let c2 = dec_digits(items2.len()).len() as int;
            lemma_digit_run_unique(bytes, pos + 1, pos + 1 + c1, pos + 1 + c2, items1.len(),
                items2.len());
            let body = pos + 3 + c1;
            lemma_seq_align(items1, items2, bytes, body, e1, e2);
            lemma_off_total(items2, body);
            lemma_off_total(items1, body);
        }
    }
}

/// A parsed element run and any element run of the same or greater length
/// over the same bytes agree on where the parsed prefix ends.
proof fn lemma_seq_align(
    pre: Seq<Message>,
    wi: Seq<Message>,
    bytes: Seq<u8>,
    start: int,
    pend: int,
    wend: int,
)
    requires
        0 <= start,
        pend <= bytes.len(),
        wend <= bytes.len(),
        start <= pend,
        start <= wend,
        pre.len() <= wi.len(),
        forall|i: int| 0 <= i < pre.len() ==> wire_ok(#[trigger] pre[i]),
        forall|i: int| 0 <= i < wi.len() ==> wire_ok(#[trigger] wi[i]),
        encoding_seq(pre) == bytes.subrange(start, pend),
        encoding_seq(wi) == bytes.subrange(start, wend),
    ensures
        seq_enc_off(wi, start, pre.len() as int) == pend,
    decreases pre,
{
    if pre.len() == 0 {
        assert(encoding_seq(pre).len() == 0);
        assert(pend == start);
    } else {
        assert(encoding_seq(pre).len() == pend - start);
        assert(encoding_seq(wi).len() == wend - start);
        let l0 = encoding(pre[0]).len() as int;
        assert(encoding_seq(pre) == encoding(pre[0]) + encoding_seq(pre.drop_first()));
        assert(start + l0 <= pend);
        lemma_concat_tail(
            encoding(pre[0]),
            encoding_seq(pre.drop_first()),
            bytes,
            start,
            pend,
        );
        assert(encoding(pre[0]) =~= bytes.subrange(start, start + l0));
        assert(encoding_seq(pre.drop_first()) =~= bytes.subrange(start + l0, pend));
        let w0 = encoding(wi[0]).len() as int;
        assert(encoding_seq(wi) == encoding(wi[0]) + encoding_seq(wi.drop_first()));
        assert(start + w0 <= wend);
        lemma_concat_tail(encoding(wi[0]), encoding_seq(wi.drop_first()), bytes, start, wend);
        assert(encoding(wi[0]) =~= bytes.subrange(start, start + w0));
        assert(encoding_seq(wi.drop_first()) =~= bytes.subrange(start + w0, wend));
        lemma_first_byte(pre[0]);
        lemma_first_byte(wi[0]);
        lemma_wire_unique(pre[0], wi[0], bytes, start, start + l0, start + w0);
        assert forall|i: int| 0 <= i < pre.drop_first().len() implies wire_ok(
            #[trigger] pre.drop_first()[i],
        ) by {
            assert(pre.drop_first()[i] == pre[i + 1]);
        }
        assert forall|i: int| 0 <= i < wi.drop_first().len() implies wire_ok(
            #[trigger] wi.drop_first()[i],
        ) by {
            assert(wi.drop_first()[i] == wi[i + 1]);
        }
        lemma_seq_align(pre.drop_first(), wi.drop_first(), bytes, start + l0, pend, wend);
        lemma_off_shift(wi, start, pre.len() as int);
    }
}

/// Every wire-well-formed element contributes at least two bytes.
proof fn lemma_seq_min_len(items: Seq<Message>)
    requires
        forall|i: int| 0 <= i < items.len() ==> wire_ok(#[trigger] items[i]),
    ensures
        encoding_seq(items).len() >= 2 * items.len(),
    decreases items,
{
    if items.len() > 0 {
        lemma_first_byte(items[0]);
        assert forall|i: int| 0 <= i < items.drop_first().len() implies wire_ok(
            #[trigger] items.drop_first()[i],
        ) by {
            assert(items.drop_first()[i] == items[i + 1]);
        }
        lemma_seq_min_len(items.drop_first());
    }
}


/// An integer witness read from the bytes: its sign matches the byte after
/// the tag, its magnitude's canonical digits fill the run, and the
/// magnitude fits the signed 64-bit range.
proof fn lemma_int_witness(w: Message, ext: Seq<u8>, pos: int, we: int)
    requires
        wire_ok(w),
        w is Integer,
        0 <= pos < we <= ext.len(),
        encoding(w) == ext.subrange(pos, we),
    ensures
        we - pos >= 4,
        ext[we - 2] == 13,
        ext[we - 1] == 10,
        (w->Integer_0 < 0) <==> ext[pos + 1] == 45,
        w->Integer_0 < 0 ==> dec_digits((-(w->Integer_0 as int)) as nat) =~= ext.subrange(
            pos + 2,
            we - 2,
        ),
        w->Integer_0 >= 0 ==> dec_digits((w->Integer_0 as int) as nat) =~= ext.subrange(
            pos + 1,
            we - 2,
        ),
        w->Integer_0 < 0 ==> -(w->Integer_0 as int) <= 0x8000000000000000,
        w->Integer_0 >= 0 ==> w->Integer_0 as int <= 0x7fffffffffffffff,
{
    lemma_invert_integer(w, ext, pos, we);
    let i = w->Integer_0;
    if i >= 0 {
        lemma_dec_digits_shape((i as int) as nat);
        assert(ext[pos + 1] == dec_digits((i as int) as nat)[0]);
    }
}

/// A fresh copy of a byte range.
fn copy_range(buf: &[u8], a: usize, b: usize) -> (r: Vec<u8>)
    requires
        a <= b <= buf@.len(),
    ensures
        r@ == buf@.subrange(a as int, b as int),
{
    let mut r: Vec<u8> = Vec::new();
    let mut i: usize = a;
    while i < b
        invariant
            a <= i <= b <= buf@.len(),
            r@ =~= buf@.subrange(a as int, i as int),
        decreases b - i,
    {
        r.push(buf[i]);
        proof {
            assert(r@ =~= buf@.subrange(a as int, (i + 1) as int));
        }
        i += 1;
    }
    r
}

/// Whether two byte strings hold the same bytes.
fn bytes_eq(a: &[u8], b: &[u8]) -> (r: bool)
    ensures
        r == (a@ == b@),
{
    if a.len() != b.len() {
        return false;
    }
    let n = a.len();
    let mut i: usize = 0;
    while i < n
        invariant
            i <= n,
            n == a@.len(),
            n == b@.len(),
            forall|j: int| 0 <= j < i ==> a@[j] == b@[j],
        decreases n - i,
    {
        if a[i] != b[i] {
            return false;
        }
        i += 1;
    }
    proof {
        assert(a@ =~= b@);
    }
    true
}

/// What a scan for the end of a line found.
enum LineScan {
    /// A CRLF whose CR sits at this position; everything before it is
    /// clean.
    Crlf(usize),
    /// A byte no line may hold: a bare LF, or a CR not followed by LF.
    Junk(usize),
    /// No line break yet: the line may still complete with more bytes.
    More,
}

/// Scans for the first CR or LF at or after `from`.
fn find_line_end(buf: &[u8], from: usize) -> (r: LineScan)
    requires
        from <= buf@.len(),
    ensures
        r matches LineScan::Crlf(q) ==> {
            &&& from <= q
            &&& q + 2 <= buf@.len()
            &&& buf@[q as int] == 13
            &&& buf@[q as int + 1] == 10
            &&& forall|t: int|
                from <= t < q ==> (#[trigger] buf@[t]) != 13 && buf@[t] != 10
        },
        r matches LineScan::Junk(q) ==> {
            &&& from <= q < buf@.len()
            &&& forall|t: int|
                from <= t < q ==> (#[trigger] buf@[t]) != 13 && buf@[t] != 10
            &&& (buf@[q as int] == 10 || (buf@[q as int] == 13 && q + 1 < buf@.len()
                && buf@[q as int + 1] != 10))
        },
        r is More ==> forall|t: int|
            from <= t < buf@.len() ==> (#[trigger] buf@[t]) != 10 && (buf@[t] == 13 ==> t + 1
                == buf@.len()),
{
    let n = buf.len();
    let mut q: usize = from;
    while q < n
        invariant
            from <= q <= n,
            n == buf@.len(),
            forall|t: int| from <= t < q ==> (#[trigger] buf@[t]) != 13 && buf@[t] != 10,
        decreases n - q,
    {
        let b = buf[q];
        if b == 10 {
            return LineScan::Junk(q);
        }
        if b == 13 {
            if q + 1 >= n {
                return LineScan::More;
            }
            if buf[q + 1] == 10 {
                return LineScan::Crlf(q);
            }
            return LineScan::Junk(q);
        }
        q += 1;
    }
    LineScan::More
}

/// No line-shaped message — simple, error, or inline, per the first byte —
/// can ever complete here: the first line break is unusable.
proof fn refute_line_junk(bytes: Seq<u8>, pos: int, ps: int, q: int)
    requires
        0 <= pos < bytes.len(),
        ((bytes[pos] == 43 || bytes[pos] == 45) && ps == pos + 1) || (!reserved_first(bytes[pos])
            && ps == pos),
        ps <= q < bytes.len(),
        forall|t: int| ps <= t < q ==> (#[trigger] bytes[t]) != 13 && bytes[t] != 10,
        bytes[q] == 10 || (bytes[q] == 13 && q + 1 < bytes.len() && bytes[q + 1] != 10),
    ensures
        no_wire_message_ever(bytes, pos),
{
    assert forall|more: Seq<u8>| !starts_wire_message(#[trigger] (bytes + more), pos) by {
        let ext = bytes + more;
        if starts_wire_message(ext, pos) {
            let (w, we): (Message, int) = choose|w: Message, we: int|
                #![trigger encoding(w), ext.subrange(pos, we)]
                {
                    &&& pos < we <= ext.len()
                    &&& wire_ok(w)
                    &&& encoding(w) == ext.subrange(pos, we)
                };
            assert(ext[pos] == bytes[pos]);
            lemma_class_from_byte(w, ext, pos, we);
            lemma_invert_line(w, ext, pos, we, ps);
            if we - 2 < q {
                assert(ext[we - 2] == bytes[we - 2]);
                assert(false);
            } else if we - 2 == q {
                if bytes[q] == 10 {
                    assert(ext[we - 2] == bytes[q]);
                    assert(false);
                } else {
                    assert(ext[we - 1] == bytes[q + 1]);
                    assert(false);
                }
            } else {
                assert(ext[q] == bytes[q]);
                assert(false);
            }
        }
    }
}

/// No line-shaped message is complete in the buffer yet: it holds no
/// usable line break.
proof fn refute_line_missing(bytes: Seq<u8>, pos: int, ps: int)
    requires
        0 <= pos < bytes.len(),
        ((bytes[pos] == 43 || bytes[pos] == 45) && ps == pos + 1) || (!reserved_first(bytes[pos])
            && ps == pos),
        forall|t: int|
            ps <= t < bytes.len() ==> (#[trigger] bytes[t]) != 10 && (bytes[t] == 13 ==> t + 1
                == bytes.len()),
    ensures
        !starts_wire_message(bytes, pos),
{
    if starts_wire_message(bytes, pos) {
        let (w, we): (Message, int) = choose|w: Message, we: int|
            #![trigger encoding(w), bytes.subrange(pos, we)]
            {
                &&& pos < we <= bytes.len()
                &&& wire_ok(w)
                &&& encoding(w) == bytes.subrange(pos, we)
            };
        lemma_class_from_byte(w, bytes, pos, we);
        lemma_invert_line(w, bytes, pos, we, ps);
        assert(bytes[we - 2] == 13);
        assert(we - 2 + 1 == bytes.len());
        assert(bytes[we - 1] == 10);
        assert(false);
    }
}

/// Frames a simple-string or error line: the tag byte, a clean payload,
/// CRLF.
fn parse_line(buf: &[u8], pos: usize) -> (r: ParseOutcome)
    requires
        pos < buf@.len(),
        buf@[pos as int] == 43 || buf@[pos as int] == 45,
    ensures
        outcome_ok(r, buf@, pos as int),
{
    let tag = buf[pos];
    match find_line_end(buf, pos + 1) {
        LineScan::Crlf(q) => {
            let payload = copy_range(buf, pos + 1, q);
            let m = if tag == 43 {
                Message::Simple(payload)
            } else {
                Message::Error(payload)
            };
            proof {
                assert(encoding(m) =~= buf@.subrange(pos as int, (q + 2) as int));
            }
            ParseOutcome::Complete(m, q + 2)
        },
        LineScan::Junk(q) => {
            proof {
                refute_line_junk(buf@, pos as int, pos as int + 1, q as int);
                lemma_never_means_not_now(buf@, pos as int);
            }
            ParseOutcome::Malformed
        },
        LineScan::More => {
            proof {
                refute_line_missing(buf@, pos as int, pos as int + 1);
            }
            ParseOutcome::Incomplete
        },
    }
}

/// Splits a line into its space-separated words.
fn split_words(line: &Vec<u8>) -> Vec<Vec<u8>> {
    let mut words: Vec<Vec<u8>> = Vec::new();
    let mut word: Vec<u8> = Vec::new();
    let n = line.len();
    let mut i: usize = 0;
    while i < n
        invariant
            i <= n,
            n == line@.len(),
        decreases n - i,
    {
        let b = line[i];
        if b == 32 {
            words.push(word);
            word = Vec::new();
        } else {
            word.push(b);
        }
        i += 1;
    }
    words.push(word);
    words
}

/// Frames an inline command line: everything up to CRLF.  When the line
/// splits cleanly into single-space-separated words, those are the
/// command's words; otherwise the whole line stands as one word.  Either
/// way the consumed bytes re-encode exactly.
fn parse_inline(buf: &[u8], pos: usize) -> (r: ParseOutcome)
    requires
        pos < buf@.len(),
        !reserved_first(buf@[pos as int]),
    ensures
        outcome_ok(r, buf@, pos as int),
{
    match find_line_end(buf, pos) {
        LineScan::Crlf(q) => {
            let n = buf.len();
            proof {
                assert(q + 2 <= n);
            }
            let line = copy_range(buf, pos, q);
            proof {
                assert(line@.len() > 0);
            }
            let consumed = copy_range(buf, pos, q + 2);
            let words = split_words(&line);
            let candidate = Message::Inline(words);
            let mut enc: Vec<u8> = Vec::new();
            crate::message::encode_message(&candidate, &mut enc);
            if bytes_eq(enc.as_slice(), consumed.as_slice()) {
                proof {
                    assert(encoding(candidate) == buf@.subrange(pos as int, (q + 2) as int));
                    let lw = inline_line(candidate->Inline_0@);
                    assert(lw + seq![13u8, 10u8] =~= buf@.subrange(pos as int, (q + 2) as int));
                    assert forall|t: int| 0 <= t < lw.len() implies lw[t] == buf@[pos + t] by {
                        assert(lw[t] == (lw + seq![13u8, 10u8])[t]);
                    }
                    assert(lw.len() == q - pos);
                    assert(wire_ok(candidate));
                }
                ParseOutcome::Complete(candidate, q + 2)
            } else {
                let m = Message::Inline(vec![line]);
                proof {
                    let lw = inline_line(m->Inline_0@);
                    assert(m->Inline_0@.len() == 1);
                    assert(lw == m->Inline_0@[0]@);
                    assert(lw =~= buf@.subrange(pos as int, q as int));
                    assert(wire_ok(m));
                    assert(encoding(m) =~= buf@.subrange(pos as int, (q + 2) as int));
                }
                ParseOutcome::Complete(m, q + 2)
            }
        },
        LineScan::Junk(q) => {
            proof {
                refute_line_junk(buf@, pos as int, pos as int, q as int);
                lemma_never_means_not_now(buf@, pos as int);
            }
            ParseOutcome::Malformed
        },
        LineScan::More => {
            proof {
                refute_line_missing(buf@, pos as int, pos as int);
            }
            ParseOutcome::Incomplete
        },
    }
}


/// Whether a CRLF sits at the position.
fn crlf_at(buf: &[u8], pos: usize) -> (r: bool)
    requires
        pos <= buf@.len(),
    ensures
        r == (pos + 2 <= buf@.len() && buf@[pos as int] == 13 && buf@[pos as int + 1] == 10),
{
    if buf.len() - pos < 2 {
        false
    } else {
        buf[pos] == 13 && buf[pos + 1] == 10
    }
}

/// Scans a canonical decimal number: at least one digit, no leading zero,
/// value within `u64`.  Answers the value and the position just past the
/// digits; past the end of a non-zero number stands no further digit.
fn scan_dec(buf: &[u8], pos: usize) -> (r: Option<(u64, usize)>)
    requires
        pos <= buf@.len(),
    ensures
        r matches Some((v, end)) ==> {
            &&& pos < end <= buf@.len()
            &&& dec_digits(v as nat) == buf@.subrange(pos as int, end as int)
            &&& 48 <= buf@[pos as int] <= 57
            &&& (v == 0 ==> end == pos + 1)
            &&& (v > 0 ==> end == buf@.len() || !(48 <= buf@[end as int] <= 57))
        },
        r is None ==> pos >= buf@.len() || !(48 <= buf@[pos as int] <= 57) || too_big(
            buf@,
            pos as int,
        ),
{
    let n = buf.len();
    if pos >= n {
        return None;
    }
    let first = buf[pos];
    if first < 48 || first > 57 {
        return None;
    }
    if first == 48 {
        proof {
            assert(buf@.subrange(pos as int, (pos + 1) as int) =~= seq![48u8]);
            assert(dec_digits(0) =~= seq![48u8]);
        }
        return Some((0, pos + 1));
    }
    let mut end = pos;
    let mut v: u64 = 0;
    while end < n && buf[end] >= 48 && buf[end] <= 57
        invariant
            pos <= end <= n,
            n == buf@.len(),
            is_digits(buf@.subrange(pos as int, end as int)),
            v == dec_value(buf@.subrange(pos as int, end as int)),
        decreases n - end,
    {
        let d = buf[end] - 48;
        if v > (u64::MAX - (d as u64)) / 10 {
            proof {
                assert(buf@.subrange(pos as int, (end + 1) as int).drop_last() =~= buf@.subrange(
                    pos as int,
                    end as int,
                ));
                assert(is_digits(buf@.subrange(pos as int, (end + 1) as int)));
                assert(dec_value(buf@.subrange(pos as int, (end + 1) as int)) > u64::MAX);
                assert(too_big(buf@, pos as int));
            }
            return None;
        }
        proof {
            assert(buf@.subrange(pos as int, (end + 1) as int).drop_last() =~= buf@.subrange(
                pos as int,
                end as int,
            ));
        }
        v = v * 10 + (d as u64);
        end += 1;
    }
    proof {
        assert(buf@.subrange(pos as int, end as int)[0] == buf@[pos as int]);
        lemma_dec_digits_roundtrip(buf@.subrange(pos as int, end as int));
        lemma_dec_value_positive(buf@.subrange(pos as int, end as int));
    }
    Some((v, end))
}

/// A digit string with no leading zero re-encodes from its value.
proof fn lemma_dec_digits_roundtrip(s: Seq<u8>)
    requires
        is_digits(s),
        s.len() > 0,
        s[0] != 48 || s.len() == 1,
    ensures
        dec_value(s) >= 0,
        dec_digits(dec_value(s) as nat) == s,
    decreases s,
{
    lemma_dec_value_nonneg(s);
    assert(48 <= s[s.len() - 1] <= 57);
    if s.len() == 1 {
        assert(dec_value(s.drop_last()) == 0);
        assert(dec_value(s) == s[0] - 48);
        assert(dec_digits(dec_value(s) as nat) =~= s);
    } else {
        let front = s.drop_last();
        let d = (s[s.len() - 1] - 48) as int;
        assert(is_digits(front));
        assert(front[0] == s[0]);
        lemma_dec_digits_roundtrip(front);
        lemma_dec_value_positive(front);
        let v = dec_value(s);
        let f = dec_value(front);
        assert(v == f * 10 + d);
        assert(v / 10 == f && v % 10 == d) by (nonlinear_arith)
            requires
                v == f * 10 + d,
                0 <= d < 10,
                f >= 0,
        ;
        assert(v >= 10);
        assert(dec_digits(v as nat) == dec_digits((v as nat) / 10).push(
            (48 + (v as nat) % 10) as u8,
        ));
        assert((v as nat) / 10 == f as nat);
        assert(dec_digits(v as nat) =~= s);
    }
}

/// A digit string opening with a non-zero digit has a positive value.
proof fn lemma_dec_value_positive(s: Seq<u8>)
    requires
        is_digits(s),
        s.len() > 0,
        s[0] != 48,
    ensures
        dec_value(s) >= 1,
    decreases s,
{
    assert(48 <= s[0] <= 57);
    assert(48 <= s[s.len() - 1] <= 57);
    if s.len() == 1 {
        assert(dec_value(s.drop_last()) == 0);
        assert(dec_value(s) == s[0] - 48);
    } else {
        let front = s.drop_last();
        assert(is_digits(front));
        assert(front[0] == s[0]);
        lemma_dec_value_positive(front);
        assert(dec_value(s) == dec_value(front) * 10 + (s[s.len() - 1] - 48));
        assert(dec_value(front) * 10 >= 10) by (nonlinear_arith)
            requires
                dec_value(front) >= 1,
        ;
    }
}

/// Frames an integer reply: `:`, an optional `-`, canonical digits, CRLF.
#[verifier::rlimit(60)]
fn parse_integer(buf: &[u8], pos: usize) -> (r: ParseOutcome)
    requires
        pos < buf@.len(),
        buf@[pos as int] == 58,
    ensures
        outcome_ok(r, buf@, pos as int),
{
    let n = buf.len();
    if pos + 1 >= n {
        proof {
            if starts_wire_message(buf@, pos as int) {
                let (w, we): (Message, int) = choose|w: Message, we: int|
                    #![trigger encoding(w), buf@.subrange(pos as int, we)]
                    {
                        &&& pos < we <= buf@.len()
                        &&& wire_ok(w)
                        &&& encoding(w) == buf@.subrange(pos as int, we)
                    };
                lemma_class_from_byte(w, buf@, pos as int, we);
                lemma_int_witness(w, buf@, pos as int, we);
                assert(false);
            }
        }
        return ParseOutcome::Incomplete;
    }
    let neg = buf[pos + 1] == 45;
    let numstart = if neg {
        pos + 2
    } else {
        pos + 1
    };
    match scan_dec(buf, numstart) {
        None => {
            if numstart >= n {
                proof {
                    if starts_wire_message(buf@, pos as int) {
                        let (w, we): (Message, int) = choose|w: Message, we: int|
                            #![trigger encoding(w), buf@.subrange(pos as int, we)]
                            {
                                &&& pos < we <= buf@.len()
                                &&& wire_ok(w)
                                &&& encoding(w) == buf@.subrange(pos as int, we)
                            };
                        lemma_class_from_byte(w, buf@, pos as int, we);
                        lemma_int_witness(w, buf@, pos as int, we);
                        if w->Integer_0 < 0 {
                            lemma_dec_digits_shape((-(w->Integer_0 as int)) as nat);
                        } else {
                            lemma_dec_digits_shape((w->Integer_0 as int) as nat);
                        }
                        assert(false);
                    }
                }
                ParseOutcome::Incomplete
            } else if buf[numstart] < 48 || buf[numstart] > 57 {
                proof {
                    assert forall|more: Seq<u8>| !starts_wire_message(
                        #[trigger] (buf@ + more),
                        pos as int,
                    ) by {
                        let ext = buf@ + more;
                        if starts_wire_message(ext, pos as int) {
                            let (w, we): (Message, int) = choose|w: Message, we: int|
                                #![trigger encoding(w), ext.subrange(pos as int, we)]
                                {
                                    &&& pos < we <= ext.len()
                                    &&& wire_ok(w)
                                    &&& encoding(w) == ext.subrange(pos as int, we)
                                };
                            assert(ext[pos as int] == buf@[pos as int]);
                            lemma_class_from_byte(w, ext, pos as int, we);
                            lemma_int_witness(w, ext, pos as int, we);
                            assert(ext[pos + 1] == buf@[pos + 1]);
                            let wn = (if w->Integer_0 < 0 {
                                -(w->Integer_0 as int)
                            } else {
                                w->Integer_0 as int
                            }) as nat;
                            lemma_dec_digits_shape(wn);
                            assert(ext[numstart as int] == dec_digits(wn)[0]);
                            assert(48 <= ext[numstart as int] <= 57);
                            assert(ext[numstart as int] == buf@[numstart as int]);
                            assert(false);
                        }
                    }
                    lemma_never_means_not_now(buf@, pos as int);
                }
                ParseOutcome::Malformed
            } else {
                // the digit run has already outgrown the 64-bit range
                proof {
                    assert(too_big(buf@, numstart as int));
                    assert forall|more: Seq<u8>| !starts_wire_message(
                        #[trigger] (buf@ + more),
                        pos as int,
                    ) by {
                        let ext = buf@ + more;
                        if starts_wire_message(ext, pos as int) {
                            let (w, we): (Message, int) = choose|w: Message, we: int|
                                #![trigger encoding(w), ext.subrange(pos as int, we)]
                                {
                                    &&& pos < we <= ext.len()
                                    &&& wire_ok(w)
                                    &&& encoding(w) == ext.subrange(pos as int, we)
                                };
                            assert(ext[pos as int] == buf@[pos as int]);
                            lemma_class_from_byte(w, ext, pos as int, we);
                            lemma_int_witness(w, ext, pos as int, we);
                            assert(ext[pos + 1] == buf@[pos + 1]);
                            let wn = (if w->Integer_0 < 0 {
                                -(w->Integer_0 as int)
                            } else {
                                w->Integer_0 as int
                            }) as nat;
                            let e = choose|e: int|
                                {
                                    &&& numstart < e <= buf@.len()
                                    &&& is_digits(#[trigger] buf@.subrange(numstart as int, e))
                                    &&& dec_value(buf@.subrange(numstart as int, e)) > u64::MAX
                                };
                            assert(buf@.subrange(numstart as int, e) =~= ext.subrange(
                                numstart as int,
                                e,
                            ));
                            assert(too_big(ext, numstart as int));
                            lemma_digit_run_bounded(ext, numstart as int, we - 2, wn);
                            assert(false);
                        }
                    }
                    lemma_never_means_not_now(buf@, pos as int);
                }
                ParseOutcome::Malformed
            }
        },
        Some((v, dend)) => {
            if crlf_at(buf, dend) {
                if neg {
                    if v == 0 || v > 9223372036854775808 {
                        proof {
                            refute_int_with_run(buf@, pos as int, numstart as int, dend as int, v);
                            lemma_never_means_not_now(buf@, pos as int);
                        }
                        ParseOutcome::Malformed
                    } else {
                        let value: i64 = if v == 9223372036854775808 {
                            i64::MIN
                        } else {
                            -(v as i64)
                        };
                        let m = Message::Integer(value);
                        proof {
                            assert(encoding(m) =~= buf@.subrange(pos as int, (dend + 2) as int));
                        }
                        ParseOutcome::Complete(m, dend + 2)
                    }
                } else {
                    if v > 9223372036854775807 {
                        proof {
                            refute_int_with_run(buf@, pos as int, numstart as int, dend as int, v);
                            lemma_never_means_not_now(buf@, pos as int);
                        }
                        ParseOutcome::Malformed
                    } else {
                        let m = Message::Integer(v as i64);
                        proof {
                            assert(encoding(m) =~= buf@.subrange(pos as int, (dend + 2) as int));
                        }
                        ParseOutcome::Complete(m, dend + 2)
                    }
                }
            } else {
                if dend >= n {
                    proof {
                        refute_int_no_break(buf@, pos as int, numstart as int, dend as int, v);
                    }
                    ParseOutcome::Incomplete
                } else if buf[dend] != 13 {
                    proof {
                        refute_int_junk(buf@, pos as int, numstart as int, dend as int, v);
                        lemma_never_means_not_now(buf@, pos as int);
                    }
                    ParseOutcome::Malformed
                } else if dend + 1 >= n {
                    proof {
                        refute_int_no_break(buf@, pos as int, numstart as int, dend as int, v);
                    }
                    ParseOutcome::Incomplete
                } else {
                    proof {
                        refute_int_junk(buf@, pos as int, numstart as int, dend as int, v);
                        lemma_never_means_not_now(buf@, pos as int);
                    }
                    ParseOutcome::Malformed
                }
            }
        },
    }
}


/// The facts every integer refutation needs about the scanned digit run.
pub open spec fn int_scan_facts(bytes: Seq<u8>, pos: int, numstart: int, dend: int, v: u64) -> bool {
    &&& 0 <= pos
    &&& pos + 1 < bytes.len()
    &&& bytes[pos] == 58
    &&& (numstart == pos + 1 || numstart == pos + 2)
    &&& ((numstart == pos + 2) <==> bytes[pos + 1] == 45)
    &&& numstart < dend <= bytes.len()
    &&& dec_digits(v as nat) == bytes.subrange(numstart, dend)
    &&& (v == 0 ==> dend == numstart + 1)
    &&& (v > 0 ==> dend == bytes.len() || !(48 <= bytes[dend] <= 57))
}

/// No integer fits: the digit run is complete (CRLF follows) but its value
/// leaves the signed 64-bit range, or reads `-0`.
proof fn refute_int_with_run(bytes: Seq<u8>, pos: int, numstart: int, dend: int, v: u64)
    requires
        int_scan_facts(bytes, pos, numstart, dend, v),
        dend + 1 < bytes.len(),
        bytes[dend] == 13,
        bytes[dend + 1] == 10,
        numstart == pos + 2 ==> v == 0 || v > 0x8000000000000000,
        numstart == pos + 1 ==> v > 0x7fffffffffffffff,
    ensures
        no_wire_message_ever(bytes, pos),
{
    assert forall|more: Seq<u8>| !starts_wire_message(#[trigger] (bytes + more), pos) by {
        let ext = bytes + more;
        if starts_wire_message(ext, pos) {
            let (w, we): (Message, int) = choose|w: Message, we: int|
                #![trigger encoding(w), ext.subrange(pos, we)]
                {
                    &&& pos < we <= ext.len()
                    &&& wire_ok(w)
                    &&& encoding(w) == ext.subrange(pos, we)
                };
            assert(ext[pos] == bytes[pos]);
            lemma_class_from_byte(w, ext, pos, we);
            lemma_int_witness(w, ext, pos, we);
            assert(ext[pos + 1] == bytes[pos + 1]);
            let wn = (if w->Integer_0 < 0 {
                -(w->Integer_0 as int)
            } else {
                w->Integer_0 as int
            }) as nat;
            assert(dec_digits(v as nat) =~= ext.subrange(numstart, dend));
            assert(ext[dend] == 13);
            lemma_digit_run_unique(ext, numstart, dend, we - 2, v as nat, wn);
            if w->Integer_0 < 0 {
                lemma_dec_digits_shape(wn);
                assert(wn >= 1) by {
                    if wn == 0 {
                        assert(dec_digits(wn)[0] == 48);
                        assert(dec_digits(v as nat)[0] == 48);
                        lemma_dec_digits_shape(v as nat);
                    }
                }
            }
            assert(false);
        }
    }
}

/// No integer can ever complete here: the byte ending the digit run is not
/// the CR of a CRLF.
proof fn refute_int_junk(bytes: Seq<u8>, pos: int, numstart: int, dend: int, v: u64)
    requires
        int_scan_facts(bytes, pos, numstart, dend, v),
        dend < bytes.len(),
        bytes[dend] != 13 || (dend + 1 < bytes.len() && bytes[dend + 1] != 10),
    ensures
        no_wire_message_ever(bytes, pos),
{
    assert forall|more: Seq<u8>| !starts_wire_message(#[trigger] (bytes + more), pos) by {
        let ext = bytes + more;
        if starts_wire_message(ext, pos) {
            let (w, we): (Message, int) = choose|w: Message, we: int|
                #![trigger encoding(w), ext.subrange(pos, we)]
                {
                    &&& pos < we <= ext.len()
                    &&& wire_ok(w)
                    &&& encoding(w) == ext.subrange(pos, we)
                };
            assert(ext[pos] == bytes[pos]);
            lemma_class_from_byte(w, ext, pos, we);
            lemma_int_witness(w, ext, pos, we);
            assert(ext[pos + 1] == bytes[pos + 1]);
            let wn = (if w->Integer_0 < 0 {
                -(w->Integer_0 as int)
            } else {
                w->Integer_0 as int
            }) as nat;
            assert(dec_digits(v as nat) =~= ext.subrange(numstart, dend));
            if v == 0 {
                // the run is the single digit zero; so is the witness run
                lemma_dec_digits_shape(v as nat);
                lemma_dec_digits_shape(wn);
                assert(ext[numstart] == dec_digits(v as nat)[0]);
                assert(ext[numstart] == 48);
                assert(ext[numstart] == dec_digits(wn)[0]);
                assert(wn == 0);
                assert(dec_digits(wn).len() == 1);
                assert(we - 2 == numstart + 1);
                assert(we - 2 == dend);
            } else {
                assert(!(48 <= ext[dend] <= 57));
                lemma_digit_run_unique(ext, numstart, dend, we - 2, v as nat, wn);
            }
            assert(ext[dend] == 13);
            assert(bytes[dend] == 13);
            assert(we - 1 == dend + 1);
            assert(dend + 1 < bytes.len() && bytes[dend + 1] != 10);
            assert(ext[dend + 1] == bytes[dend + 1]);
            assert(false);
        }
    }
}

/// No integer is complete in the buffer yet: the digit run reaches the end
/// of the bytes, or only its CR has arrived.
proof fn refute_int_no_break(bytes: Seq<u8>, pos: int, numstart: int, dend: int, v: u64)
    requires
        int_scan_facts(bytes, pos, numstart, dend, v),
        dend == bytes.len() || (dend + 1 == bytes.len() && bytes[dend] == 13),
    ensures
        !starts_wire_message(bytes, pos),
{
    if starts_wire_message(bytes, pos) {
        let (w, we): (Message, int) = choose|w: Message, we: int|
            #![trigger encoding(w), bytes.subrange(pos, we)]
            {
                &&& pos < we <= bytes.len()
                &&& wire_ok(w)
                &&& encoding(w) == bytes.subrange(pos, we)
            };
        lemma_class_from_byte(w, bytes, pos, we);
        lemma_int_witness(w, bytes, pos, we);
        let wn = (if w->Integer_0 < 0 {
            -(w->Integer_0 as int)
        } else {
            w->Integer_0 as int
        }) as nat;
        lemma_dec_digits_shape(v as nat);
        lemma_dec_digits_shape(wn);
        if v == 0 {
            assert(bytes[numstart] == dec_digits(v as nat)[0]);
            assert(bytes[numstart] == 48);
            assert(bytes[numstart] == dec_digits(wn)[0]);
            assert(wn == 0);
            assert(we - 2 == numstart + 1);
            assert(we - 2 == dend);
            assert(we == dend + 2);
            assert(false);
        } else {
            if we - 2 < dend {
                // the witness CR would sit inside the scanned digits
                assert(bytes[we - 2] == dec_digits(v as nat)[we - 2 - numstart]);
                assert(48 <= bytes[we - 2] <= 57);
                assert(false);
            } else {
                assert(we - 2 >= dend);
                assert(we <= bytes.len());
                assert(false);
            }
        }
    }
}


/// What the scanner established about a bulk header's digit run.
pub open spec fn bulk_scan_facts(bytes: Seq<u8>, pos: int, dend: int, v: u64) -> bool {
    &&& 0 <= pos
    &&& pos + 1 < bytes.len()
    &&& bytes[pos] == 36
    &&& 48 <= bytes[pos + 1] <= 57
    &&& pos + 1 < dend <= bytes.len()
    &&& dec_digits(v as nat) == bytes.subrange(pos + 1, dend)
    &&& (v == 0 ==> dend == pos + 2)
    &&& (v > 0 ==> dend == bytes.len() || !(48 <= bytes[dend] <= 57))
}

/// Any bulk witness at a scanned header is a counted bulk whose length is
/// the scanned value; its total extent follows.
proof fn lemma_bulk_witness(w: Message, ext: Seq<u8>, pos: int, we: int, dend: int, v: u64)
    requires
        wire_ok(w),
        0 <= pos < we <= ext.len(),
        encoding(w) == ext.subrange(pos, we),
        ext[pos] == 36,
        pos + 1 < ext.len(),
        48 <= ext[pos + 1] <= 57,
        pos + 1 < dend <= ext.len(),
        dec_digits(v as nat) == ext.subrange(pos + 1, dend),
        v == 0 ==> dend == pos + 2,
        v > 0 ==> dend == ext.len() || !(48 <= ext[dend] <= 57),
    ensures
        w is Bulk,
        (w->Bulk_0)@.len() == v as nat,
        we == dend + 2 + (v as int) + 2,
        we - 2 >= dend + 2,
        ext[we - 2] == 13,
        ext[we - 1] == 10,
        ext[dend] == 13,
        ext[dend + 1] == 10,
{
    lemma_class_from_byte(w, ext, pos, we);
    if w is Null {
        lemma_invert_bulk(w, ext, pos, we);
        assert(ext[pos + 1] == 45);
        assert(false);
    }
    lemma_invert_bulk(w, ext, pos, we);
    let wl = (w->Bulk_0)@.len();
    let dl = dec_digits(wl).len() as int;
    lemma_dec_digits_shape(wl);
    lemma_dec_digits_shape(v as nat);
    if v == 0 {
        assert(ext[pos + 1] == dec_digits(v as nat)[0]);
        assert(ext[pos + 1] == 48);
        assert(ext[pos + 1] == dec_digits(wl)[0]);
        assert(wl == 0) by {
            if wl >= 1 {
                assert(dec_digits(wl)[0] != 48);
            }
        }
        assert(dl == 1);
        assert(pos + 1 + dl == dend);
    } else {
        assert(ext[pos + 1 + dl] == 13);
        lemma_digit_run_unique(ext, pos + 1, dend, pos + 1 + dl, v as nat, wl);
    }
    lemma_dec_digits_value(v as nat);
    lemma_dec_digits_value(wl);
}

/// No bulk can ever complete here: the byte ending the length run is not
/// the CR of a CRLF.
proof fn refute_bulk_header_junk(bytes: Seq<u8>, pos: int, dend: int, v: u64)
    requires
        bulk_scan_facts(bytes, pos, dend, v),
        dend < bytes.len(),
        bytes[dend] != 13 || (dend + 1 < bytes.len() && bytes[dend + 1] != 10),
    ensures
        no_wire_message_ever(bytes, pos),
{
    assert forall|more: Seq<u8>| !starts_wire_message(#[trigger] (bytes + more), pos) by {
        let ext = bytes + more;
        if starts_wire_message(ext, pos) {
            let (w, we): (Message, int) = choose|w: Message, we: int|
                #![trigger encoding(w), ext.subrange(pos, we)]
                {
                    &&& pos < we <= ext.len()
                    &&& wire_ok(w)
                    &&& encoding(w) == ext.subrange(pos, we)
                };
            assert(ext[pos] == bytes[pos]);
            assert(ext[pos + 1] == bytes[pos + 1]);
            assert(dec_digits(v as nat) =~= ext.subrange(pos + 1, dend));
            assert(dend < ext.len());
            assert(ext[dend] == bytes[dend]);
            lemma_bulk_witness(w, ext, pos, we, dend, v);
            assert(bytes[dend] == 13);
            assert(ext[dend + 1] == bytes[dend + 1]);
            assert(false);
        }
    }
}

/// No bulk is complete in the buffer yet: the length run reaches the end
/// of the bytes, or only part of its framing has arrived.
proof fn refute_bulk_short(bytes: Seq<u8>, pos: int, dend: int, v: u64)
    requires
        bulk_scan_facts(bytes, pos, dend, v),
        dend + 2 + v + 2 > bytes.len(),
    ensures
        !starts_wire_message(bytes, pos),
{
    if starts_wire_message(bytes, pos) {
        let (w, we): (Message, int) = choose|w: Message, we: int|
            #![trigger encoding(w), bytes.subrange(pos, we)]
            {
                &&& pos < we <= bytes.len()
                &&& wire_ok(w)
                &&& encoding(w) == bytes.subrange(pos, we)
            };
        lemma_bulk_witness(w, bytes, pos, we, dend, v);
        assert(false);
    }
}

/// No bulk can ever complete here: the byte closing the payload is not the
/// CR of a CRLF.
proof fn refute_bulk_payload_junk(bytes: Seq<u8>, pos: int, dend: int, v: u64, p13: int)
    requires
        bulk_scan_facts(bytes, pos, dend, v),
        p13 == dend + 2 + v,
        p13 < bytes.len(),
        bytes[p13] != 13 || (p13 + 1 < bytes.len() && bytes[p13 + 1] != 10),
    ensures
        no_wire_message_ever(bytes, pos),
{
    assert forall|more: Seq<u8>| !starts_wire_message(#[trigger] (bytes + more), pos) by {
        let ext = bytes + more;
        if starts_wire_message(ext, pos) {
            let (w, we): (Message, int) = choose|w: Message, we: int|
                #![trigger encoding(w), ext.subrange(pos, we)]
                {
                    &&& pos < we <= ext.len()
                    &&& wire_ok(w)
                    &&& encoding(w) == ext.subrange(pos, we)
                };
            assert(ext[pos] == bytes[pos]);
            assert(ext[pos + 1] == bytes[pos + 1]);
            assert(dec_digits(v as nat) =~= ext.subrange(pos + 1, dend));
            lemma_bulk_witness(w, ext, pos, we, dend, v);
            assert(we - 2 == p13);
            assert(ext[p13] == bytes[p13]);
            assert(bytes[p13] == 13);
            assert(ext[p13 + 1] == bytes[p13 + 1]);
            assert(false);
        }
    }
}

/// No bulk is even possible: the length run alone has outgrown the 64-bit
/// range, so any payload it promises could not fit in an addressable
/// buffer.
proof fn refute_bulk_too_big(bytes: Seq<u8>, pos: int)
    requires
        0 <= pos,
        pos + 1 < bytes.len(),
        bytes[pos] == 36,
        48 <= bytes[pos + 1] <= 57,
        too_big(bytes, pos + 1),
        bytes.len() <= u64::MAX,
    ensures
        !starts_wire_message(bytes, pos),
{
    if starts_wire_message(bytes, pos) {
        let (w, we): (Message, int) = choose|w: Message, we: int|
            #![trigger encoding(w), bytes.subrange(pos, we)]
            {
                &&& pos < we <= bytes.len()
                &&& wire_ok(w)
                &&& encoding(w) == bytes.subrange(pos, we)
            };
        lemma_class_from_byte(w, bytes, pos, we);
        if w is Null {
            lemma_invert_bulk(w, bytes, pos, we);
            assert(bytes[pos + 1] == 45);
            assert(false);
        }
        lemma_invert_bulk(w, bytes, pos, we);
        let wl = (w->Bulk_0)@.len();
        let dl = dec_digits(wl).len() as int;
        lemma_dec_digits_shape(wl);
        assert(bytes[pos + 1 + dl] == 13);
        lemma_digit_run_bounded(bytes, pos + 1, pos + 1 + dl, wl);
        assert(we > bytes.len());
        assert(false);
    }
}

/// No null bulk or null array can ever complete here: a committed byte of
/// the fixed five-byte form is wrong.
proof fn refute_null_form(bytes: Seq<u8>, pos: int)
    requires
        0 <= pos,
        pos + 1 < bytes.len(),
        bytes[pos] == 36 || bytes[pos] == 42,
        bytes[pos + 1] == 45,
        (pos + 2 < bytes.len() && bytes[pos + 2] != 49) || (pos + 3 < bytes.len() && bytes[pos
            + 3] != 13) || (pos + 4 < bytes.len() && bytes[pos + 4] != 10),
    ensures
        no_wire_message_ever(bytes, pos),
{
    assert forall|more: Seq<u8>| !starts_wire_message(#[trigger] (bytes + more), pos) by {
        let ext = bytes + more;
        if starts_wire_message(ext, pos) {
            let (w, we): (Message, int) = choose|w: Message, we: int|
                #![trigger encoding(w), ext.subrange(pos, we)]
                {
                    &&& pos < we <= ext.len()
                    &&& wire_ok(w)
                    &&& encoding(w) == ext.subrange(pos, we)
                };
            assert(ext[pos] == bytes[pos]);
            assert(ext[pos + 1] == bytes[pos + 1]);
            lemma_class_from_byte(w, ext, pos, we);
            if w is Bulk {
                lemma_invert_bulk(w, ext, pos, we);
                lemma_dec_digits_shape((w->Bulk_0)@.len());
                assert(ext[pos + 1] == dec_digits((w->Bulk_0)@.len())[0]);
                assert(false);
            }
            if w is Array {
                lemma_invert_array(w, ext, pos, we);
                lemma_dec_digits_shape((w->Array_0)@.len());
                assert(ext[pos + 1] == dec_digits((w->Array_0)@.len())[0]);
                assert(false);
            }
            if w is Null {
                lemma_invert_bulk(w, ext, pos, we);
            } else {
                lemma_invert_array(w, ext, pos, we);
            }
            if pos + 2 < bytes.len() && bytes[pos + 2] != 49 {
                assert(ext[pos + 2] == bytes[pos + 2]);
                assert(false);
            } else if pos + 3 < bytes.len() && bytes[pos + 3] != 13 {
                assert(ext[pos + 3] == bytes[pos + 3]);
                assert(false);
            } else {
                assert(ext[pos + 4] == bytes[pos + 4]);
                assert(false);
            }
        }
    }
}

/// Frames a bulk string: `$`, a canonical length or `-1`, CRLF, the
/// payload, CRLF.
#[verifier::rlimit(60)]
fn parse_bulk(buf: &[u8], pos: usize) -> (r: ParseOutcome)
    requires
        pos < buf@.len(),
        buf@[pos as int] == 36,
    ensures
        outcome_ok(r, buf@, pos as int),
{
    let n = buf.len();
    if pos + 1 >= n {
        proof {
            if starts_wire_message(buf@, pos as int) {
                let (w, we): (Message, int) = choose|w: Message, we: int|
                    #![trigger encoding(w), buf@.subrange(pos as int, we)]
                    {
                        &&& pos < we <= buf@.len()
                        &&& wire_ok(w)
                        &&& encoding(w) == buf@.subrange(pos as int, we)
                    };
                lemma_class_from_byte(w, buf@, pos as int, we);
                assert(false);
            }
        }
        return ParseOutcome::Incomplete;
    }
    if buf[pos + 1] == 45 {
        if pos + 2 < n && buf[pos + 2] != 49 {
            proof {
                refute_null_form(buf@, pos as int);
                lemma_never_means_not_now(buf@, pos as int);
            }
            return ParseOutcome::Malformed;
        }
        if n - pos > 3 && buf[pos + 3] != 13 {
            proof {
                refute_null_form(buf@, pos as int);
                lemma_never_means_not_now(buf@, pos as int);
            }
            return ParseOutcome::Malformed;
        }
        if n - pos > 4 && buf[pos + 4] != 10 {
            proof {
                refute_null_form(buf@, pos as int);
                lemma_never_means_not_now(buf@, pos as int);
            }
            return ParseOutcome::Malformed;
        }
        if n - pos > 4 {
            proof {
                assert(encoding(Message::Null) =~= buf@.subrange(pos as int, (pos + 5) as int));
            }
            return ParseOutcome::Complete(Message::Null, pos + 5);
        }
        proof {
            if starts_wire_message(buf@, pos as int) {
                let (w, we): (Message, int) = choose|w: Message, we: int|
                    #![trigger encoding(w), buf@.subrange(pos as int, we)]
                    {
                        &&& pos < we <= buf@.len()
                        &&& wire_ok(w)
                        &&& encoding(w) == buf@.subrange(pos as int, we)
                    };
                lemma_class_from_byte(w, buf@, pos as int, we);
                if w is Bulk {
                    lemma_invert_bulk(w, buf@, pos as int, we);
                    lemma_dec_digits_shape((w->Bulk_0)@.len());
                    assert(buf@[pos + 1] == dec_digits((w->Bulk_0)@.len())[0]);
                }
                lemma_invert_bulk(w, buf@, pos as int, we);
                assert(false);
            }
        }
        return ParseOutcome::Incomplete;
    }
    match scan_dec(buf, pos + 1) {
        None => {
            if buf[pos + 1] < 48 || buf[pos + 1] > 57 {
                proof {
                    assert forall|more: Seq<u8>| !starts_wire_message(
                        #[trigger] (buf@ + more),
                        pos as int,
                    ) by {
                        let ext = buf@ + more;
                        if starts_wire_message(ext, pos as int) {
                            let (w, we): (Message, int) = choose|w: Message, we: int|
                                #![trigger encoding(w), ext.subrange(pos as int, we)]
                                {
                                    &&& pos < we <= ext.len()
                                    &&& wire_ok(w)
                                    &&& encoding(w) == ext.subrange(pos as int, we)
                                };
                            assert(ext[pos as int] == buf@[pos as int]);
                            assert(ext[pos + 1] == buf@[pos + 1]);
                            lemma_class_from_byte(w, ext, pos as int, we);
                            lemma_invert_bulk(w, ext, pos as int, we);
                            if w is Bulk {
                                lemma_dec_digits_shape((w->Bulk_0)@.len());
                                assert(ext[pos + 1] == dec_digits((w->Bulk_0)@.len())[0]);
                            }
                            assert(false);
                        }
                    }
                    lemma_never_means_not_now(buf@, pos as int);
                }
                ParseOutcome::Malformed
            } else {
                proof {
                    assert(buf@.len() <= u64::MAX);
                    refute_bulk_too_big(buf@, pos as int);
                }
                ParseOutcome::Incomplete
            }
        },
        Some((v, dend)) => {
            if !crlf_at(buf, dend) {
                if dend >= n || (buf[dend] == 13 && dend + 1 >= n) {
                    proof {
                        refute_bulk_short(buf@, pos as int, dend as int, v);
                    }
                    ParseOutcome::Incomplete
                } else {
                    proof {
                        refute_bulk_header_junk(buf@, pos as int, dend as int, v);
                        lemma_never_means_not_now(buf@, pos as int);
                    }
                    ParseOutcome::Malformed
                }
            } else {
                if v > (n - (dend + 2)) as u64 {
                    proof {
                        refute_bulk_short(buf@, pos as int, dend as int, v);
                    }
                    return ParseOutcome::Incomplete;
                }
                let len = v as usize;
                let p13 = dend + 2 + len;
                if crlf_at(buf, p13) {
                    let payload = copy_range(buf, dend + 2, p13);
                    let m = Message::Bulk(payload);
                    proof {
                        assert(encoding(m) =~= buf@.subrange(pos as int, (p13 + 2) as int));
                    }
                    ParseOutcome::Complete(m, p13 + 2)
                } else if p13 < n && buf[p13] != 13 {
                    proof {
                        refute_bulk_payload_junk(buf@, pos as int, dend as int, v, p13 as int);
                        lemma_never_means_not_now(buf@, pos as int);
                    }
                    ParseOutcome::Malformed
                } else if n - p13 > 1 {
                    proof {
                        refute_bulk_payload_junk(buf@, pos as int, dend as int, v, p13 as int);
                        lemma_never_means_not_now(buf@, pos as int);
                    }
                    ParseOutcome::Malformed
                } else {
                    proof {
                        refute_bulk_short(buf@, pos as int, dend as int, v);
                    }
                    ParseOutcome::Incomplete
                }
            }
        },
    }
}


/// What the scanner established about an array header's digit run, with
/// its CRLF already committed.
pub open spec fn array_scan_facts(bytes: Seq<u8>, pos: int, dend: int, c: u64) -> bool {
    &&& 0 <= pos
    &&& pos + 1 < bytes.len()
    &&& bytes[pos] == 42
    &&& 48 <= bytes[pos + 1] <= 57
    &&& pos + 1 < dend <= bytes.len()
    &&& dec_digits(c as nat) == bytes.subrange(pos + 1, dend)
    &&& (c == 0 ==> dend == pos + 2)
    &&& (c > 0 ==> dend == bytes.len() || !(48 <= bytes[dend] <= 57))
}

/// Any array witness at a scanned header is a counted array of exactly the
/// scanned many elements, each wire-well-formed, whose bodies fill the
/// bytes after the header's CRLF.
proof fn lemma_array_witness(w: Message, ext: Seq<u8>, pos: int, we: int, dend: int, c: u64)
    requires
        wire_ok(w),
        0 <= pos < we <= ext.len(),
        encoding(w) == ext.subrange(pos, we),
        ext[pos] == 42,
        pos + 1 < ext.len(),
        48 <= ext[pos + 1] <= 57,
        pos + 1 < dend <= ext.len(),
        dec_digits(c as nat) == ext.subrange(pos + 1, dend),
        c == 0 ==> dend == pos + 2,
        c > 0 ==> dend == ext.len() || !(48 <= ext[dend] <= 57),
    ensures
        w is Array,
        (w->Array_0)@.len() == c as nat,
        dend + 1 < ext.len(),
        ext[dend] == 13,
        ext[dend + 1] == 10,
        we >= dend + 2,
        encoding_seq((w->Array_0)@) =~= ext.subrange(dend + 2, we),
        forall|i: int| 0 <= i < (w->Array_0)@.len() ==> wire_ok(#[trigger] (w->Array_0)@[i]),
{
    lemma_class_from_byte(w, ext, pos, we);
    if w is NullArray {
        lemma_invert_array(w, ext, pos, we);
        assert(ext[pos + 1] == 45);
        assert(false);
    }
    lemma_invert_array(w, ext, pos, we);
    let wc = (w->Array_0)@.len();
    let cd = dec_digits(wc).len() as int;
    lemma_dec_digits_shape(wc);
    lemma_dec_digits_shape(c as nat);
    if c == 0 {
        assert(ext[pos + 1] == dec_digits(c as nat)[0]);
        assert(ext[pos + 1] == 48);
        assert(ext[pos + 1] == dec_digits(wc)[0]);
        assert(wc == 0) by {
            if wc >= 1 {
                assert(dec_digits(wc)[0] != 48);
            }
        }
        assert(cd == 1);
        assert(pos + 1 + cd == dend);
    } else {
        assert(ext[pos + 1 + cd] == 13);
        lemma_digit_run_unique(ext, pos + 1, dend, pos + 1 + cd, c as nat, wc);
    }
    lemma_dec_digits_value(c as nat);
    lemma_dec_digits_value(wc);
}

/// No array can ever complete here: the byte ending the count run is not
/// the CR of a CRLF.
proof fn refute_array_header_junk(bytes: Seq<u8>, pos: int, dend: int, c: u64)
    requires
        array_scan_facts(bytes, pos, dend, c),
        dend < bytes.len(),
        bytes[dend] != 13 || (dend + 1 < bytes.len() && bytes[dend + 1] != 10),
    ensures
        no_wire_message_ever(bytes, pos),
{
    assert forall|more: Seq<u8>| !starts_wire_message(#[trigger] (bytes + more), pos) by {
        let ext = bytes + more;
        if starts_wire_message(ext, pos) {
            let (w, we): (Message, int) = choose|w: Message, we: int|
                #![trigger encoding(w), ext.subrange(pos, we)]
                {
                    &&& pos < we <= ext.len()
                    &&& wire_ok(w)
                    &&& encoding(w) == ext.subrange(pos, we)
                };
            assert(ext[pos] == bytes[pos]);
            assert(ext[pos + 1] == bytes[pos + 1]);
            assert(dec_digits(c as nat) =~= ext.subrange(pos + 1, dend));
            assert(dend < ext.len());
            assert(ext[dend] == bytes[dend]);
            lemma_array_witness(w, ext, pos, we, dend, c);
            assert(bytes[dend] == 13);
            assert(ext[dend + 1] == bytes[dend + 1]);
            assert(false);
        }
    }
}

/// No array is complete in the buffer yet: the count run reaches the end
/// of the bytes, or only its CR has arrived.
proof fn refute_array_header_short(bytes: Seq<u8>, pos: int, dend: int, c: u64)
    requires
        array_scan_facts(bytes, pos, dend, c),
        dend == bytes.len() || (dend + 1 == bytes.len() && bytes[dend] == 13),
    ensures
        !starts_wire_message(bytes, pos),
{
    if starts_wire_message(bytes, pos) {
        let (w, we): (Message, int) = choose|w: Message, we: int|
            #![trigger encoding(w), bytes.subrange(pos, we)]
            {
                &&& pos < we <= bytes.len()
                &&& wire_ok(w)
                &&& encoding(w) == bytes.subrange(pos, we)
            };
        lemma_array_witness(w, bytes, pos, we, dend, c);
        assert(false);
    }
}

/// No array of this count fits in the buffer: every element needs bytes.
proof fn refute_array_count_short(bytes: Seq<u8>, pos: int, dend: int, c: u64)
    requires
        array_scan_facts(bytes, pos, dend, c),
        c > bytes.len(),
    ensures
        !starts_wire_message(bytes, pos),
{
    if starts_wire_message(bytes, pos) {
        let (w, we): (Message, int) = choose|w: Message, we: int|
            #![trigger encoding(w), bytes.subrange(pos, we)]
            {
                &&& pos < we <= bytes.len()
                &&& wire_ok(w)
                &&& encoding(w) == bytes.subrange(pos, we)
            };
        lemma_array_witness(w, bytes, pos, we, dend, c);
        lemma_seq_min_len((w->Array_0)@);
        assert(we - (dend + 2) >= 2 * (c as int));
        assert(false);
    }
}

/// No array is even possible: its count run alone has outgrown the 64-bit
/// range.
proof fn refute_array_too_big(bytes: Seq<u8>, pos: int)
    requires
        0 <= pos,
        pos + 1 < bytes.len(),
        bytes[pos] == 42,
        48 <= bytes[pos + 1] <= 57,
        too_big(bytes, pos + 1),
        bytes.len() <= u64::MAX,
    ensures
        !starts_wire_message(bytes, pos),
{
    if starts_wire_message(bytes, pos) {
        let (w, we): (Message, int) = choose|w: Message, we: int|
            #![trigger encoding(w), bytes.subrange(pos, we)]
            {
                &&& pos < we <= bytes.len()
                &&& wire_ok(w)
                &&& encoding(w) == bytes.subrange(pos, we)
            };
        lemma_class_from_byte(w, bytes, pos, we);
        if w is NullArray {
            lemma_invert_array(w, bytes, pos, we);
            assert(bytes[pos + 1] == 45);
            assert(false);
        }
        lemma_invert_array(w, bytes, pos, we);
        let wc = (w->Array_0)@.len();
        let cd = dec_digits(wc).len() as int;
        lemma_dec_digits_shape(wc);
        assert(bytes[pos + 1 + cd] == 13);
        lemma_digit_run_bounded(bytes, pos + 1, pos + 1 + cd, wc);
        lemma_seq_min_len((w->Array_0)@);
        assert(we > bytes.len());
        assert(false);
    }
}

/// An array whose next element cannot be framed yet is itself not complete
/// in the buffer.
proof fn refute_array_element_blocked(
    bytes: Seq<u8>,
    pos: int,
    dend: int,
    c: u64,
    pre: Seq<Message>,
    cur: int,
)
    requires
        array_scan_facts(bytes, pos, dend, c),
        dend + 1 < bytes.len(),
        bytes[dend] == 13,
        bytes[dend + 1] == 10,
        pre.len() < c,
        forall|i: int| 0 <= i < pre.len() ==> wire_ok(#[trigger] pre[i]),
        dend + 2 <= cur <= bytes.len(),
        encoding_seq(pre) == bytes.subrange(dend + 2, cur),
        !starts_wire_message(bytes, cur),
    ensures
        !starts_wire_message(bytes, pos),
{
    if starts_wire_message(bytes, pos) {
        let (w, we): (Message, int) = choose|w: Message, we: int|
            #![trigger encoding(w), bytes.subrange(pos, we)]
            {
                &&& pos < we <= bytes.len()
                &&& wire_ok(w)
                &&& encoding(w) == bytes.subrange(pos, we)
            };
        lemma_array_witness(w, bytes, pos, we, dend, c);
        let wi = (w->Array_0)@;
        let k = pre.len() as int;
        lemma_seq_align(pre, wi, bytes, dend + 2, cur, we);
        lemma_element_slice(wi, bytes, dend + 2, we, k);
        lemma_first_byte(wi[k]);
        assert(encoding(wi[k]) == bytes.subrange(cur, seq_enc_off(wi, dend + 2, k + 1)));
        assert(starts_wire_message(bytes, cur));
        assert(false);
    }
}

/// An array whose next element can never be framed can itself never be.
proof fn refute_array_element_dead(
    bytes: Seq<u8>,
    pos: int,
    dend: int,
    c: u64,
    pre: Seq<Message>,
    cur: int,
)
    requires
        array_scan_facts(bytes, pos, dend, c),
        dend + 1 < bytes.len(),
        bytes[dend] == 13,
        bytes[dend + 1] == 10,
        pre.len() < c,
        forall|i: int| 0 <= i < pre.len() ==> wire_ok(#[trigger] pre[i]),
        dend + 2 <= cur <= bytes.len(),
        encoding_seq(pre) == bytes.subrange(dend + 2, cur),
        no_wire_message_ever(bytes, cur),
    ensures
        no_wire_message_ever(bytes, pos),
{
    assert forall|more: Seq<u8>| !starts_wire_message(#[trigger] (bytes + more), pos) by {
        let ext = bytes + more;
        if starts_wire_message(ext, pos) {
            let (w, we): (Message, int) = choose|w: Message, we: int|
                #![trigger encoding(w), ext.subrange(pos, we)]
                {
                    &&& pos < we <= ext.len()
                    &&& wire_ok(w)
                    &&& encoding(w) == ext.subrange(pos, we)
                };
            assert(ext[pos] == bytes[pos]);
            assert(ext[pos + 1] == bytes[pos + 1]);
            assert(dec_digits(c as nat) =~= ext.subrange(pos + 1, dend));
            assert(ext[dend] == bytes[dend]);
            lemma_array_witness(w, ext, pos, we, dend, c);
            let wi = (w->Array_0)@;
            let k = pre.len() as int;
            assert(encoding_seq(pre) =~= ext.subrange(dend + 2, cur));
            lemma_seq_align(pre, wi, ext, dend + 2, cur, we);
            lemma_element_slice(wi, ext, dend + 2, we, k);
            lemma_first_byte(wi[k]);
            assert(encoding(wi[k]) == ext.subrange(cur, seq_enc_off(wi, dend + 2, k + 1)));
            assert(starts_wire_message(ext, cur));
            assert(!starts_wire_message(bytes + more, cur));
            assert(false);
        }
    }
}

/// Frames one message starting at `pos`: the full framing contract of
/// `outcome_ok` is proved, soundness and completeness both.
#[verifier::loop_isolation(false)]
#[verifier::rlimit(80)]
pub fn parse_message(buf: &[u8], pos: usize) -> (r: ParseOutcome)
    requires
        pos <= buf@.len(),
    ensures
        outcome_ok(r, buf@, pos as int),
    decreases buf@.len() - pos,
{
    let n = buf.len();
    if pos >= n {
        return ParseOutcome::Incomplete;
    }
    let tag = buf[pos];
    if tag == 43 || tag == 45 {
        parse_line(buf, pos)
    } else if tag == 58 {
        parse_integer(buf, pos)
    } else if tag == 36 {
        parse_bulk(buf, pos)
    } else if tag == 13 || tag == 10 || tag == 32 {
        proof {
            assert forall|more: Seq<u8>| !starts_wire_message(
                #[trigger] (buf@ + more),
                pos as int,
            ) by {
                let ext = buf@ + more;
                if starts_wire_message(ext, pos as int) {
                    let (w, we): (Message, int) = choose|w: Message, we: int|
                        #![trigger encoding(w), ext.subrange(pos as int, we)]
                        {
                            &&& pos < we <= ext.len()
                            &&& wire_ok(w)
                            &&& encoding(w) == ext.subrange(pos as int, we)
                        };
                    assert(ext[pos as int] == buf@[pos as int]);
                    lemma_class_from_byte(w, ext, pos as int, we);
                    assert(false);
                }
            }
            lemma_never_means_not_now(buf@, pos as int);
        }
        ParseOutcome::Malformed
    } else if tag != 42 {
        parse_inline(buf, pos)
    } else {
        // *array: either the null array or a counted element run
        if pos + 1 >= n {
            proof {
                if starts_wire_message(buf@, pos as int) {
                    let (w, we): (Message, int) = choose|w: Message, we: int|
                        #![trigger encoding(w), buf@.subrange(pos as int, we)]
                        {
                            &&& pos < we <= buf@.len()
                            &&& wire_ok(w)
                            &&& encoding(w) == buf@.subrange(pos as int, we)
                        };
                    lemma_class_from_byte(w, buf@, pos as int, we);
                    assert(false);
                }
            }
            return ParseOutcome::Incomplete;
        }
        if buf[pos + 1] == 45 {
            if pos + 2 < n && buf[pos + 2] != 49 {
                proof {
                    refute_null_form(buf@, pos as int);
                    lemma_never_means_not_now(buf@, pos as int);
                }
                return ParseOutcome::Malformed;
            }
            if n - pos > 3 && buf[pos + 3] != 13 {
                proof {
                    refute_null_form(buf@, pos as int);
                    lemma_never_means_not_now(buf@, pos as int);
                }
                return ParseOutcome::Malformed;
            }
            if n - pos > 4 && buf[pos + 4] != 10 {
                proof {
                    refute_null_form(buf@, pos as int);
                    lemma_never_means_not_now(buf@, pos as int);
                }
                return ParseOutcome::Malformed;
            }
            if n - pos > 4 {
                proof {
                    assert(encoding(Message::NullArray) =~= buf@.subrange(
                        pos as int,
                        (pos + 5) as int,
                    ));
                }
                return ParseOutcome::Complete(Message::NullArray, pos + 5);
            }
            proof {
                if starts_wire_message(buf@, pos as int) {
                    let (w, we): (Message, int) = choose|w: Message, we: int|
                        #![trigger encoding(w), buf@.subrange(pos as int, we)]
                        {
                            &&& pos < we <= buf@.len()
                            &&& wire_ok(w)
                            &&& encoding(w) == buf@.subrange(pos as int, we)
                        };
                    lemma_class_from_byte(w, buf@, pos as int, we);
                    if w is Array {
                        lemma_invert_array(w, buf@, pos as int, we);
                        lemma_dec_digits_shape((w->Array_0)@.len());
                        assert(buf@[pos + 1] == dec_digits((w->Array_0)@.len())[0]);
                    }
                    lemma_invert_array(w, buf@, pos as int, we);
                    assert(false);
                }
            }
            return ParseOutcome::Incomplete;
        }
        match scan_dec(buf, pos + 1) {
            None => {
                if buf[pos + 1] < 48 || buf[pos + 1] > 57 {
                    proof {
                        assert forall|more: Seq<u8>| !starts_wire_message(
                            #[trigger] (buf@ + more),
                            pos as int,
                        ) by {
                            let ext = buf@ + more;
                            if starts_wire_message(ext, pos as int) {
                                let (w, we): (Message, int) = choose|w: Message, we: int|
                                    #![trigger encoding(w), ext.subrange(pos as int, we)]
                                    {
                                        &&& pos < we <= ext.len()
                                        &&& wire_ok(w)
                                        &&& encoding(w) == ext.subrange(pos as int, we)
                                    };
                                assert(ext[pos as int] == buf@[pos as int]);
                                assert(ext[pos + 1] == buf@[pos + 1]);
                                lemma_class_from_byte(w, ext, pos as int, we);
                                lemma_invert_array(w, ext, pos as int, we);
                                if w is Array {
                                    lemma_dec_digits_shape((w->Array_0)@.len());
                                    assert(ext[pos + 1] == dec_digits((w->Array_0)@.len())[0]);
                                }
                                assert(false);
                            }
                        }
                        lemma_never_means_not_now(buf@, pos as int);
                    }
                    ParseOutcome::Malformed
                } else {
                    proof {
                        assert(buf@.len() <= u64::MAX);
                        refute_array_too_big(buf@, pos as int);
                    }
                    ParseOutcome::Incomplete
                }
            },
            Some((c, dend)) => {
                if !crlf_at(buf, dend) {
                    if dend >= n || (buf[dend] == 13 && dend + 1 >= n) {
                        proof {
                            refute_array_header_short(buf@, pos as int, dend as int, c);
                        }
                        ParseOutcome::Incomplete
                    } else {
                        proof {
                            refute_array_header_junk(buf@, pos as int, dend as int, c);
                            lemma_never_means_not_now(buf@, pos as int);
                        }
                        ParseOutcome::Malformed
                    }
                } else if c > n as u64 {
                    proof {
                        refute_array_count_short(buf@, pos as int, dend as int, c);
                    }
                    ParseOutcome::Incomplete
                } else {
                    let count = c as usize;
                    let mut items: Vec<Message> = Vec::new();
                    let mut cur = dend + 2;
                    let mut k: usize = 0;
                    while k < count
                        invariant
                            k <= count,
                            items@.len() == k,
                            dend + 2 <= cur <= n,
                            encoding_seq(items@) =~= buf@.subrange((dend + 2) as int, cur as int),
                            forall|i: int| 0 <= i < k ==> wire_ok(#[trigger] items@[i]),
                        decreases count - k,
                    {
                        match parse_message(buf, cur) {
                            ParseOutcome::Complete(m, end) => {
                                proof {
                                    crate::message::lemma_encoding_seq_push(items@, m);
                                    assert(buf@.subrange((dend + 2) as int, end as int)
                                        =~= buf@.subrange((dend + 2) as int, cur as int)
                                        + buf@.subrange(cur as int, end as int));
                                }
                                items.push(m);
                                proof {
                                    assert forall|i: int| 0 <= i < k + 1 implies wire_ok(
                                        #[trigger] items@[i],
                                    ) by {}
                                }
                                cur = end;
                            },
                            ParseOutcome::Incomplete => {
                                proof {
                                    refute_array_element_blocked(
                                        buf@,
                                        pos as int,
                                        dend as int,
                                        c,
                                        items@,
                                        cur as int,
                                    );
                                }
                                return ParseOutcome::Incomplete;
                            },
                            ParseOutcome::Malformed => {
                                proof {
                                    refute_array_element_dead(
                                        buf@,
                                        pos as int,
                                        dend as int,
                                        c,
                                        items@,
                                        cur as int,
                                    );
                                    lemma_never_means_not_now(buf@, pos as int);
                                }
                                return ParseOutcome::Malformed;
                            },
                        }
                        k += 1;
                    }
                    let m = Message::Array(items);
                    proof {
                        assert((m->Array_0)@.len() == c as nat);
                        assert(encoding(m) =~= buf@.subrange(pos as int, cur as int));
                        assert(wire_ok(m));
                    }
                    ParseOutcome::Complete(m, cur)
                }
            },
        }
    }
}

} // verus!
