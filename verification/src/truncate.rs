//! A formatter that forwards at most a fixed number of bytes to the text it
//! writes into, and values that render through it.

use vstd::prelude::*;
use vstd::utf8::*;
use vstd::string::*;

use crate::text::{decimal, decimal_string, lemma_decimal_digits};

verus! {

/// `core::fmt::Error`, the error of a formatting write.
#[verifier::external_type_specification]
#[verifier::external_body]
pub struct ExFmtError(core::fmt::Error);

/// The UTF-8 encoding of a concatenation is the concatenation of the encodings.
pub proof fn lemma_encode_utf8_concat(a: Seq<char>, b: Seq<char>)
    ensures
        encode_utf8(a + b) == encode_utf8(a) + encode_utf8(b),
    decreases a.len(),
{
    if a.len() == 0 {
        assert(a + b == b);
    } else {
        lemma_encode_utf8_concat(a.drop_first(), b);
        assert((a + b).drop_first() == a.drop_first() + b);
        assert((a + b)[0] == a[0]);
    }
}

/// What one write of `piece` does to a truncating formatter that may still
/// forward `remaining` bytes and has forwarded `out` so far: it forwards the
/// first `min(remaining, |piece|)` bytes of `piece` and lowers the budget by as
/// many.
pub open spec fn truncate_step(remaining: nat, out: Seq<u8>, piece: Seq<u8>) -> (nat, Seq<u8>) {
    if remaining < piece.len() {
        (0, out + piece.take(remaining as int))
    } else {
        ((remaining - piece.len()) as nat, out + piece)
    }
}

/// The state after writing `pieces` one after the other.
pub open spec fn truncate_all(remaining: nat, out: Seq<u8>, pieces: Seq<Seq<u8>>) -> (nat, Seq<u8>)
    decreases pieces.len(),
{
    if pieces.len() == 0 {
        (remaining, out)
    } else {
        let (r, o) = truncate_all(remaining, out, pieces.drop_last());
        truncate_step(r, o, pieces.last())
    }
}

/// The budget left after writing `pieces` one after the other.
pub open spec fn budget_after(remaining: nat, pieces: Seq<Seq<u8>>) -> nat
    decreases pieces.len(),
{
    if pieces.len() == 0 {
        remaining
    } else {
        let r = budget_after(remaining, pieces.drop_last());
        if r < pieces.last().len() {
            0
        } else {
            (r - pieces.last().len()) as nat
        }
    }
}

/// True when every write of `pieces`, started with a budget of `remaining`
/// bytes, cuts its piece (if it cuts it at all) between two characters.
pub open spec fn cuts_on_boundaries(remaining: nat, pieces: Seq<Seq<u8>>) -> bool {
    forall|i: int|
        0 <= i < pieces.len() && #[trigger] budget_after(remaining, pieces.take(i))
            < pieces[i].len() ==> is_char_boundary(
            pieces[i],
            budget_after(remaining, pieces.take(i)) as int,
        )
}

/// The budget part of `truncate_all` does not depend on what was forwarded.
proof fn lemma_budget_after(remaining: nat, out: Seq<u8>, pieces: Seq<Seq<u8>>)
    ensures
        truncate_all(remaining, out, pieces).0 == budget_after(remaining, pieces),
    decreases pieces.len(),
{
    if pieces.len() > 0 {
        lemma_budget_after(remaining, out, pieces.drop_last());
    }
}

/// Writing `pieces` one after the other through a truncating formatter with a
/// budget of `remaining` bytes forwards exactly the first `min(remaining, total)`
/// bytes of their concatenation (`total` bytes long) and leaves the budget
/// lowered by as many.
pub proof fn lemma_truncated_writes_forward_prefix(
    remaining: nat,
    out: Seq<u8>,
    pieces: Seq<Seq<u8>>,
)
    ensures
        ({
            let total = pieces.flatten().len();
            let k = if remaining < total {
                remaining
            } else {
                total
            };
            truncate_all(remaining, out, pieces) == ((remaining - k) as nat, out + pieces.flatten().take(
                k as int,
            ))
        }),
    decreases pieces.len(),
{
    pieces.lemma_flatten_and_flatten_alt_are_equivalent();
    if pieces.len() == 0 {
        assert(out + pieces.flatten().take(0) == out);
    } else {
        let rest = pieces.drop_last();
        let last = pieces.last();
        lemma_truncated_writes_forward_prefix(remaining, out, rest);
        rest.lemma_flatten_and_flatten_alt_are_equivalent();
        let f = rest.flatten();
        assert(pieces.flatten() == f + last);
        let kf = if remaining < f.len() {
            remaining
        } else {
            f.len()
        };
        if remaining <= f.len() {
            assert((f + last).take(remaining as int) == f.take(remaining as int));
            if last.len() > 0 {
                assert(last.take(0) == Seq::<u8>::empty());
                assert(out + f.take(remaining as int) + last.take(0) == out + f.take(
                    remaining as int,
                ));
            } else {
                assert(out + f.take(remaining as int) + last == out + f.take(remaining as int));
            }
        } else {
            let r = (remaining - f.len()) as nat;
            assert(f.take(f.len() as int) == f);
            if r < last.len() {
                assert((f + last).take(remaining as int) == f + last.take(r as int));
                assert(out + f + last.take(r as int) == out + (f + last.take(r as int)));
            } else {
                assert((f + last).take((f.len() + last.len()) as int) == f + last);
                assert(out + f + last == out + (f + last));
            }
        }
    }
}

/// However many writes have been made, the bytes forwarded so far and the
/// budget left add up to the budget the formatter started with.
pub proof fn lemma_forwarded_plus_budget(remaining: nat, out: Seq<u8>, pieces: Seq<Seq<u8>>)
    ensures
        truncate_all(remaining, out, pieces).1.len() - out.len() + truncate_all(
            remaining,
            out,
            pieces,
        ).0 == remaining,
{
    lemma_truncated_writes_forward_prefix(remaining, out, pieces);
}

/// Two writes one after the other forward what one write of their
/// concatenation would forward, and leave the same budget.
pub proof fn lemma_two_writes_are_one(remaining: nat, out: Seq<u8>, a: Seq<u8>, b: Seq<u8>)
    ensures
        ({
            let (r, o) = truncate_step(remaining, out, a);
            truncate_step(r, o, b)
        }) == truncate_step(remaining, out, a + b),
{
    let (r, o) = truncate_step(remaining, out, a);
    if remaining < a.len() {
        assert((a + b).take(remaining as int) == a.take(remaining as int));
        if b.len() > 0 {
            assert(o + b.take(0) == o);
        } else {
            assert(o + b == o);
        }
    } else if r < b.len() {
        assert((a + b).take(remaining as int) == a + b.take(r as int));
        assert(out + a + b.take(r as int) == out + (a + b.take(r as int)));
    } else {
        assert(out + a + b == out + (a + b));
    }
}

/// The UTF-8 encodings of a sequence of texts.
pub open spec fn encodings(texts: Seq<Seq<char>>) -> Seq<Seq<u8>> {
    texts.map_values(|t: Seq<char>| encode_utf8(t))
}

/// Bytes below 0x80 (ASCII text).
pub open spec fn ascii_bytes(bytes: Seq<u8>) -> bool {
    forall|k: int| 0 <= k < bytes.len() ==> #[trigger] bytes[k] < 0x80
}

/// ASCII bytes are valid UTF-8, and may be cut anywhere.
pub proof fn lemma_ascii_cut_anywhere(bytes: Seq<u8>, i: int)
    requires
        ascii_bytes(bytes),
        0 <= i <= bytes.len(),
    ensures
        valid_utf8(bytes),
        is_char_boundary(bytes, i),
    decreases bytes.len(),
{
    if bytes.len() > 0 {
        let b = bytes[0];
        assert(b < 0x80);
        assert((b & 0x7f) as u32 == b as u32) by (bit_vector)
            requires
                b < 0x80,
        ;
        assert(valid_first_scalar(bytes));
        let rest = pop_first_scalar(bytes);
        assert(rest == bytes.drop_first());
        assert forall|k: int| 0 <= k < rest.len() implies #[trigger] rest[k] < 0x80 by {
            assert(rest[k] == bytes[k + 1]);
        }
        if i > 0 {
            lemma_ascii_cut_anywhere(rest, i - 1);
        } else {
            lemma_ascii_cut_anywhere(rest, 0);
        }
    }
}

/// The encoding of ASCII text is ASCII bytes.
pub proof fn lemma_ascii_encoding(t: Seq<char>)
    requires
        is_ascii_chars(t),
    ensures
        ascii_bytes(encode_utf8(t)),
        encode_utf8(t).len() == t.len(),
{
    is_ascii_chars_encode_utf8(t);
    assert forall|k: int| 0 <= k < encode_utf8(t).len() implies #[trigger] encode_utf8(t)[k] < 0x80 by {
        assert(t[k] as u8 == encode_utf8(t)[k]);
        assert('\0' <= t[k] <= '\u{7f}');
    }
}

/// The encodings of ASCII texts, one after the other, are ASCII bytes.
proof fn lemma_ascii_encodings(texts: Seq<Seq<char>>)
    requires
        forall|i: int| 0 <= i < texts.len() ==> is_ascii_chars(#[trigger] texts[i]),
    ensures
        ascii_bytes(encodings(texts).flatten()),
    decreases texts.len(),
{
    if texts.len() > 0 {
        let front = texts.drop_last();
        assert forall|i: int| 0 <= i < front.len() implies is_ascii_chars(#[trigger] front[i]) by {
            assert(front[i] == texts[i]);
        }
        lemma_ascii_encodings(front);
        let pieces = encodings(texts);
        assert(pieces == encodings(front).push(pieces.last()));
        encodings(front).lemma_flatten_push(pieces.last());
        lemma_ascii_encoding(texts.last());
        let f = encodings(front).flatten();
        let l = pieces.last();
        assert forall|k: int| 0 <= k < (f + l).len() implies #[trigger] (f + l)[k] < 0x80 by {
            if k < f.len() {
                assert((f + l)[k] == f[k]);
            } else {
                assert((f + l)[k] == l[k - f.len()]);
            }
        }
    }
}

/// A rendering made of ASCII texts may be cut anywhere.
pub proof fn lemma_ascii_pieces_cut_anywhere(texts: Seq<Seq<char>>, k: int)
    requires
        forall|i: int| 0 <= i < texts.len() ==> is_ascii_chars(#[trigger] texts[i]),
        0 <= k <= encodings(texts).flatten().len(),
    ensures
        is_char_boundary(encodings(texts).flatten(), k),
{
    lemma_ascii_encodings(texts);
    lemma_ascii_cut_anywhere(encodings(texts).flatten(), k);
}

/// The budget left after writing `pieces` is what the budget exceeds their
/// total length by, or nothing.
proof fn lemma_budget_after_total(remaining: nat, pieces: Seq<Seq<u8>>)
    ensures
        budget_after(remaining, pieces) == if remaining < pieces.flatten().len() {
            0
        } else {
            (remaining - pieces.flatten().len()) as nat
        },
{
    lemma_budget_after(remaining, Seq::empty(), pieces);
    lemma_truncated_writes_forward_prefix(remaining, Seq::empty(), pieces);
}

/// The bytes before piece `i`, piece `i`, and the bytes after it make up the
/// whole.
proof fn lemma_flatten_around(pieces: Seq<Seq<u8>>, i: int)
    requires
        0 <= i < pieces.len(),
    ensures
        pieces.flatten() == pieces.take(i).flatten() + pieces[i] + pieces.skip(i + 1).flatten(),
{
    assert(pieces == pieces.take(i + 1) + pieces.skip(i + 1));
    vstd::seq_lib::lemma_flatten_concat(pieces.take(i + 1), pieces.skip(i + 1));
    assert(pieces.take(i + 1) == pieces.take(i).push(pieces[i]));
    pieces.take(i).lemma_flatten_push(pieces[i]);
}

/// Every text's encoding, and so every run of them, is valid UTF-8.
proof fn lemma_encodings_valid(texts: Seq<Seq<char>>)
    ensures
        forall|i: int| 0 <= i < texts.len() ==> valid_utf8(#[trigger] encodings(texts)[i]),
        valid_utf8(encodings(texts).flatten()),
    decreases texts.len(),
{
    let pieces = encodings(texts);
    assert forall|i: int| 0 <= i < texts.len() implies valid_utf8(#[trigger] encodings(texts)[i]) by {
        encode_utf8_valid_utf8(texts[i]);
    }
    if texts.len() > 0 {
        let front = texts.drop_last();
        lemma_encodings_valid(front);
        assert(pieces == encodings(front).push(pieces.last()));
        encodings(front).lemma_flatten_push(pieces.last());
        encode_utf8_valid_utf8(texts.last());
        valid_utf8_concat(encodings(front).flatten(), pieces.last());
    }
}

/// A place inside a piece is a character boundary of the piece exactly when
/// it is one of the whole text around it.
proof fn lemma_boundary_in_piece(pre: Seq<u8>, piece: Seq<u8>, post: Seq<u8>, b: int)
    requires
        valid_utf8(pre),
        valid_utf8(piece),
        valid_utf8(post),
        0 <= b < piece.len(),
    ensures
        is_char_boundary(pre + piece + post, pre.len() + b) <==> is_char_boundary(piece, b),
{
    valid_utf8_concat(pre, piece);
    valid_utf8_concat(pre + piece, post);
    is_char_boundary_iff_not_is_continuation_byte(pre + piece + post, pre.len() + b);
    is_char_boundary_iff_not_is_continuation_byte(piece, b);
    assert((pre + piece + post)[pre.len() + b] == piece[b]);
}

/// A budget that cuts the whole rendering between two characters cuts each
/// written piece between two characters: only the piece in which the budget
/// runs out is cut inside, at the same place.
pub proof fn lemma_whole_cut_cuts_pieces(remaining: nat, texts: Seq<Seq<char>>)
    requires
        remaining < encodings(texts).flatten().len() ==> is_char_boundary(
            encodings(texts).flatten(),
            remaining as int,
        ),
    ensures
        cuts_on_boundaries(remaining, encodings(texts)),
{
    let pieces = encodings(texts);
    lemma_encodings_valid(texts);
    assert forall|i: int|
        0 <= i < pieces.len() && #[trigger] budget_after(remaining, pieces.take(i))
            < pieces[i].len() implies is_char_boundary(
        pieces[i],
        budget_after(remaining, pieces.take(i)) as int,
    ) by {
        let b = budget_after(remaining, pieces.take(i));
        lemma_budget_after_total(remaining, pieces.take(i));
        lemma_flatten_around(pieces, i);
        assert(pieces.take(i) == encodings(texts.take(i)));
        assert(pieces.skip(i + 1) == encodings(texts.skip(i + 1)));
        lemma_encodings_valid(texts.take(i));
        lemma_encodings_valid(texts.skip(i + 1));
        if b == 0 {
            is_char_boundary_start_end_of_seq(pieces[i]);
        } else {
            lemma_boundary_in_piece(
                pieces.take(i).flatten(),
                pieces[i],
                pieces.skip(i + 1).flatten(),
                b as int,
            );
        }
    }
}

/// Text that writes can be made to, such as a `String` or a formatter: the
/// writes that succeed append their text.
pub trait TextSink {
    /// The text written so far.
    spec fn text(&self) -> Seq<char>;

    /// True when no write to a sink of this type fails.
    spec fn infallible() -> bool;

    /// Appends `s`, or fails.
    fn write_text(&mut self, s: &str) -> (r: Result<(), core::fmt::Error>)
        ensures
            r is Ok ==> final(self).text() == old(self).text() + s@,
            Self::infallible() ==> r is Ok,
    ;
}

impl TextSink for String {
    open spec fn text(&self) -> Seq<char> {
        self@
    }

    open spec fn infallible() -> bool {
        true
    }

    fn write_text(&mut self, s: &str) -> (r: Result<(), core::fmt::Error>) {
        self.append(s);
        Ok(())
    }
}

/// The texts of a list of strings.
pub open spec fn texts_of(pieces: Seq<String>) -> Seq<Seq<char>> {
    pieces.map_values(|p: String| p@)
}

/// The number of bytes that writing a text of `len` bytes forwards with a
/// budget of `remaining` bytes.
pub open spec fn forwarded(remaining: nat, len: nat) -> nat {
    if remaining < len {
        remaining
    } else {
        len
    }
}

/// A formatter that forwards what is written to it into `inner` until
/// `remaining` bytes have been forwarded, and drops the rest.
pub struct TruncatedFormatter<'a, W> {
    pub remaining: usize,
    pub inner: &'a mut W,
}

impl<'a, W: TextSink> TruncatedFormatter<'a, W> {
    /// Writes `s`: forwards its first `min(remaining, s.len())` bytes and lowers
    /// the budget by as many. A cut that would split a character is excluded.
    /// A failing write of the inner sink is passed on: a cut write then leaves
    /// the budget as it was, a whole write leaves it lowered.
    pub fn write_str(&mut self, s: &str) -> (r: Result<(), core::fmt::Error>)
        requires
            old(self).remaining < s.spec_bytes().len() ==> is_char_boundary(
                s.spec_bytes(),
                old(self).remaining as int,
            ),
        ensures
            W::infallible() ==> r is Ok,
            r is Ok ==> (final(self).remaining as nat, encode_utf8(final(self).inner.text()))
                == truncate_step(
                old(self).remaining as nat,
                encode_utf8(old(self).inner.text()),
                s.spec_bytes(),
            ),
            r is Ok && old(self).remaining >= s.spec_bytes().len() ==> final(self).inner.text()
                == old(self).inner.text() + s@,
            r is Ok ==> final(self).inner.text().subrange(0, old(self).inner.text().len() as int)
                == old(self).inner.text(),
            r is Err ==> final(self).remaining == if old(self).remaining < s.spec_bytes().len() {
                old(self).remaining
            } else {
                (old(self).remaining - s.spec_bytes().len()) as usize
            },
            *final(old(self).inner) == *final(final(self).inner),
    {
        let len = s.as_bytes().len();
        if self.remaining < len {
            let (head, _rest) = s.split_at(self.remaining);
            proof {
                lemma_encode_utf8_concat(self.inner.text(), head@);
                assert(encode_utf8(head@) == s.spec_bytes().take(old(self).remaining as int));
            }
            let r = self.inner.write_text(head);
            if r.is_err() {
                return r;
            }
            self.remaining = 0;
            assert(self.inner.text().subrange(0, old(self).inner.text().len() as int)
                == old(self).inner.text());
            Ok(())
        } else {
            proof {
                lemma_encode_utf8_concat(self.inner.text(), s@);
            }
            self.remaining = self.remaining - len;
            let r = self.inner.write_text(s);
            if r.is_ok() {
                assert(self.inner.text().subrange(0, old(self).inner.text().len() as int)
                    == old(self).inner.text());
            }
            r
        }
    }

    /// Writes `pieces` one after the other, stopping at the first write that
    /// fails. When all succeed, the first `min(remaining, total)` bytes of their
    /// concatenation (`total` bytes long) have been forwarded and the budget is
    /// lowered by as many. A budget that would cut the concatenation inside a
    /// character is excluded.
    pub fn write_pieces(&mut self, pieces: &Vec<String>) -> (r: Result<(), core::fmt::Error>)
        requires
            old(self).remaining < encodings(texts_of(pieces@)).flatten().len() ==> is_char_boundary(
                encodings(texts_of(pieces@)).flatten(),
                old(self).remaining as int,
            ),
        ensures
            W::infallible() ==> r is Ok,
            r is Ok ==> ({
                let all = encodings(texts_of(pieces@)).flatten();
                let k = forwarded(old(self).remaining as nat, all.len());
                &&& encode_utf8(final(self).inner.text()) == encode_utf8(old(self).inner.text())
                    + all.take(k as int)
                &&& final(self).remaining == old(self).remaining - k
            }),
            r is Ok ==> encode_utf8(final(self).inner.text()).len() - encode_utf8(
                old(self).inner.text(),
            ).len() + final(self).remaining == old(self).remaining,
            *final(old(self).inner) == *final(final(self).inner),
    {
        let ghost texts = texts_of(pieces@);
        let ghost bytes = encodings(texts);
        let ghost start = encode_utf8(self.inner.text());
        let ghost budget = self.remaining as nat;
        proof {
            lemma_whole_cut_cuts_pieces(budget, texts);
        }
        let mut i: usize = 0;
        while i < pieces.len()
            invariant
                i <= pieces@.len(),
                pieces@.len() == bytes.len(),
                texts == texts_of(pieces@),
                bytes == encodings(texts),
                cuts_on_boundaries(budget, bytes),
                (self.remaining as nat, encode_utf8(self.inner.text())) == truncate_all(
                    budget,
                    start,
                    bytes.take(i as int),
                ),
                *final(old(self).inner) == *final(self.inner),
            decreases pieces@.len() - i,
        {
            let piece = pieces[i].as_str();
            proof {
                assert(bytes[i as int] == encode_utf8(pieces@[i as int]@));
                lemma_budget_after(budget, start, bytes.take(i as int));
            }
            let w = self.write_str(piece);
            if w.is_err() {
                return w;
            }
            proof {
                assert(bytes.take(i + 1).drop_last() == bytes.take(i as int));
            }
            i = i + 1;
        }
        proof {
            assert(bytes.take(bytes.len() as int) == bytes);
            lemma_truncated_writes_forward_prefix(budget, start, bytes);
        }
        Ok(())
    }
}

/// A value that renders itself as a sequence of texts, written one after the
/// other (as a `Display` implementation writes its pieces).
pub trait Render {
    /// The texts that rendering writes, in order.
    spec fn rendered(&self) -> Seq<Seq<char>>;

    /// The texts that rendering writes, in order.
    fn pieces(&self) -> (r: Vec<String>)
        ensures
            texts_of(r@) == self.rendered(),
    ;
}

/// A value rendered through a formatter that keeps at most `self.0` bytes.
pub struct TruncatedValue<'a, T>(pub usize, pub &'a T);

impl<'a, T: Render> TruncatedValue<'a, T> {
    /// Renders the value into `out`, keeping only the first `self.0` bytes of
    /// its rendering; a failing write of `out` is passed on. A cut that would
    /// split a character is excluded.
    pub fn fmt<W: TextSink>(&self, out: &mut W) -> (r: Result<(), core::fmt::Error>)
        requires
            self.0 < encodings(self.1.rendered()).flatten().len() ==> is_char_boundary(
                encodings(self.1.rendered()).flatten(),
                self.0 as int,
            ),
        ensures
            W::infallible() ==> r is Ok,
            r is Ok ==> ({
                let all = encodings(self.1.rendered()).flatten();
                encode_utf8(final(out).text()) == encode_utf8(old(out).text()) + all.take(
                    forwarded(self.0 as nat, all.len()) as int,
                )
            }),
    {
        let pieces = self.1.pieces();
        let mut f = TruncatedFormatter { remaining: self.0, inner: out };
        let r = f.write_pieces(&pieces);
        let TruncatedFormatter { remaining: _, inner } = f;
        r
    }
}

/// A value whose rendering writes the decimal numbers from 0 to 9999, one
/// write per number (an expensive rendering of almost 40000 bytes).
pub struct ExpensiveFmt {}

/// The number of writes that rendering an `ExpensiveFmt` makes.
pub const EXPENSIVE_PIECES: u64 = 10000;

impl Render for ExpensiveFmt {
    open spec fn rendered(&self) -> Seq<Seq<char>> {
        Seq::new(EXPENSIVE_PIECES as nat, |i: int| decimal(i as nat))
    }

    fn pieces(&self) -> (r: Vec<String>) {
        let mut r: Vec<String> = Vec::new();
        let mut i: u64 = 0;
        while i < EXPENSIVE_PIECES
            invariant
                i <= EXPENSIVE_PIECES,
                r@.len() == i,
                forall|j: int| 0 <= j < i ==> #[trigger] r@[j]@ == decimal(j as nat),
            decreases EXPENSIVE_PIECES - i,
        {
            r.push(decimal_string(i));
            i = i + 1;
        }
        assert(texts_of(r@) == self.rendered());
        r
    }
}

/// The rendering of an `ExpensiveFmt` may be cut anywhere.
pub proof fn lemma_expensive_cuts_anywhere(v: ExpensiveFmt, k: int)
    requires
        0 <= k <= encodings(v.rendered()).flatten().len(),
    ensures
        is_char_boundary(encodings(v.rendered()).flatten(), k),
{
    let texts = v.rendered();
    assert forall|i: int| 0 <= i < texts.len() implies is_ascii_chars(#[trigger] texts[i]) by {
        lemma_decimal_digits(i as nat);
    }
    lemma_ascii_pieces_cut_anywhere(texts, k);
}

} // verus!
