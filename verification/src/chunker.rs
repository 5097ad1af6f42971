//! Boundary-aware text chunking.
//!
//! Splits a text (UTF-8 bytes) into an ordered sequence of chunks, each within
//! a provider character budget.  Splitting prefers sentence boundaries (a
//! punctuation mark followed by a space or newline); a single sentence longer
//! than the budget falls back to packing its whitespace-delimited words, each
//! word carrying its trailing separators, so that no byte is ever lost:
//! concatenating the chunks in order reproduces the input exactly, for every
//! input ([`lemma_split_reassembles`]).
//!
//! The result of [`split_text_semantically`] is pinned exactly to the spec
//! function [`split_spec`], so chunking is a pure function of the input text
//! and the limit.

use vstd::prelude::*;

verus! {

use vstd::arithmetic::div_mod::{
    lemma_basic_div, lemma_div_non_zero, lemma_div_plus_one, lemma_fundamental_div_mod,
    lemma_mod_add_multiples_vanish, lemma_mod_bound, lemma_small_mod,
};

/// Sentence-ending punctuation: `.`, `!`, `?`.
pub open spec fn is_sentence_punct(b: u8) -> bool {
    b == 46 || b == 33 || b == 63
}

/// What may follow the punctuation to close a sentence: space or newline.
pub open spec fn is_sentence_space(b: u8) -> bool {
    b == 32 || b == 10
}

/// ASCII whitespace, the separator for the word-packing fallback.  The
/// chunker works byte by byte, so this is a deliberate byte-level policy:
/// a multi-byte Unicode space is part of the word it touches, never a
/// separator.
pub open spec fn is_ascii_space(b: u8) -> bool {
    b == 32 || b == 9 || b == 10 || b == 11 || b == 12 || b == 13
}

/// A sentence boundary sits at `i`: punctuation at `i` followed by a
/// space/newline at `i + 1`.
pub open spec fn boundary_at(t: Seq<u8>, i: int) -> bool {
    0 <= i && i + 1 < t.len() && is_sentence_punct(t[i]) && is_sentence_space(t[i + 1])
}

/// Length of the first candidate sentence of `t`: everything up to and
/// including the earliest sentence boundary, or all of `t` when none exists.
pub open spec fn sentence_len(t: Seq<u8>) -> int
    decreases t.len(),
{
    if t.len() >= 2 && is_sentence_punct(t[0]) && is_sentence_space(t[1]) {
        2
    } else if t.len() <= 1 {
        t.len() as int
    } else {
        1 + sentence_len(t.skip(1))
    }
}

/// `sentence_len`, clamped into `1 ..= t.len()` so that recursion over the
/// remainder terminates syntactically.  `lemma_sentence_len_bounds` shows the
/// clamp never takes effect on a non-empty text.
pub open spec fn sentence_take(t: Seq<u8>) -> int {
    let n = sentence_len(t);
    if n < 1 {
        1
    } else if n > t.len() {
        t.len() as int
    } else {
        n
    }
}

pub proof fn lemma_sentence_len_bounds(t: Seq<u8>)
    requires
        t.len() > 0,
    ensures
        1 <= sentence_len(t) <= t.len(),
        sentence_take(t) == sentence_len(t),
    decreases t.len(),
{
    if t.len() >= 2 && is_sentence_punct(t[0]) && is_sentence_space(t[1]) {
    } else if t.len() <= 1 {
    } else {
        lemma_sentence_len_bounds(t.skip(1));
    }
}

/// `sentence_len` picks the earliest boundary: either there is no boundary at
/// all and the sentence is the whole text, or the sentence ends two bytes past
/// the first boundary.
pub proof fn lemma_sentence_len_earliest(t: Seq<u8>)
    requires
        t.len() > 0,
    ensures
        (sentence_len(t) == t.len() && forall|j: int| !boundary_at(t, j)) || (boundary_at(
            t,
            sentence_len(t) - 2,
        ) && forall|j: int| 0 <= j < sentence_len(t) - 2 ==> !boundary_at(t, j)),
    decreases t.len(),
{
    if t.len() >= 2 && is_sentence_punct(t[0]) && is_sentence_space(t[1]) {
    } else if t.len() <= 1 {
        assert(forall|j: int| !boundary_at(t, j));
    } else {
        lemma_sentence_len_earliest(t.skip(1));
        assert(forall|j: int| boundary_at(t.skip(1), j) == boundary_at(t, j + 1)) by {
            assert forall|j: int| boundary_at(t.skip(1), j) == boundary_at(t, j + 1) by {
                if 0 <= j && j + 1 < t.skip(1).len() {
                    assert(t.skip(1)[j] == t[j + 1]);
                    assert(t.skip(1)[j + 1] == t[j + 2]);
                }
            }
        }
        if sentence_len(t.skip(1)) == t.skip(1).len() && (forall|j: int|
            !boundary_at(t.skip(1), j)) {
            assert forall|j: int| !boundary_at(t, j) by {
                if j >= 1 {
                    assert(!boundary_at(t.skip(1), j - 1));
                }
            }
        } else {
            assert(boundary_at(t, sentence_len(t) - 2));
            assert forall|j: int| 0 <= j < sentence_len(t) - 2 implies !boundary_at(t, j) by {
                if j >= 1 {
                    assert(!boundary_at(t.skip(1), j - 1));
                }
            }
        }
    }
}

/// A word boundary sits after `i`: whitespace at `i` followed by a non-space
/// byte at `i + 1`.  The fallback splits an oversized sentence exactly here,
/// so every word keeps the separators that follow it.
pub open spec fn word_boundary_at(s: Seq<u8>, i: int) -> bool {
    0 <= i && i + 1 < s.len() && is_ascii_space(s[i]) && !is_ascii_space(s[i + 1])
}

/// Length of the first word segment of `s`: a word together with its
/// trailing whitespace run (or a leading whitespace run), up to the earliest
/// word boundary, or all of `s` when none exists.
pub open spec fn seg_len(s: Seq<u8>) -> int
    decreases s.len(),
{
    if s.len() >= 2 && is_ascii_space(s[0]) && !is_ascii_space(s[1]) {
        1
    } else if s.len() <= 1 {
        s.len() as int
    } else {
        1 + seg_len(s.skip(1))
    }
}

/// `seg_len`, clamped into `1 ..= s.len()`; `lemma_seg_len_bounds` shows the
/// clamp never takes effect on a non-empty sentence.
pub open spec fn seg_take(s: Seq<u8>) -> int {
    let n = seg_len(s);
    if n < 1 {
        1
    } else if n > s.len() {
        s.len() as int
    } else {
        n
    }
}

pub proof fn lemma_seg_len_bounds(s: Seq<u8>)
    requires
        s.len() > 0,
    ensures
        1 <= seg_len(s) <= s.len(),
        seg_take(s) == seg_len(s),
    decreases s.len(),
{
    if s.len() >= 2 && is_ascii_space(s[0]) && !is_ascii_space(s[1]) {
    } else if s.len() <= 1 {
    } else {
        lemma_seg_len_bounds(s.skip(1));
    }
}

/// `seg_len` picks the earliest word boundary: either there is none and the
/// segment is the whole remainder, or the segment ends one byte past the
/// first boundary.
pub proof fn lemma_seg_len_earliest(s: Seq<u8>)
    requires
        s.len() > 0,
    ensures
        (seg_len(s) == s.len() && forall|j: int| !word_boundary_at(s, j)) || (word_boundary_at(
            s,
            seg_len(s) - 1,
        ) && forall|j: int| 0 <= j < seg_len(s) - 1 ==> !word_boundary_at(s, j)),
    decreases s.len(),
{
    if s.len() >= 2 && is_ascii_space(s[0]) && !is_ascii_space(s[1]) {
    } else if s.len() <= 1 {
        assert(forall|j: int| !word_boundary_at(s, j));
    } else {
        lemma_seg_len_earliest(s.skip(1));
        assert(forall|j: int| word_boundary_at(s.skip(1), j) == word_boundary_at(s, j + 1)) by {
            assert forall|j: int| word_boundary_at(s.skip(1), j) == word_boundary_at(
                s,
                j + 1,
            ) by {
                if 0 <= j && j + 1 < s.skip(1).len() {
                    assert(s.skip(1)[j] == s[j + 1]);
                    assert(s.skip(1)[j + 1] == s[j + 2]);
                }
            }
        }
        if seg_len(s.skip(1)) == s.skip(1).len() && (forall|j: int|
            !word_boundary_at(s.skip(1), j)) {
            assert forall|j: int| !word_boundary_at(s, j) by {
                if j >= 1 {
                    assert(!word_boundary_at(s.skip(1), j - 1));
                }
            }
        } else {
            assert(word_boundary_at(s, seg_len(s) - 1));
            assert forall|j: int| 0 <= j < seg_len(s) - 1 implies !word_boundary_at(s, j) by {
                if j >= 1 {
                    assert(!word_boundary_at(s.skip(1), j - 1));
                }
            }
        }
    }
}

/// The word segments of an oversized sentence, in order: split before every
/// word start, so each segment is a word plus its trailing separators (a
/// leading whitespace run forms the first segment).  Concatenating the
/// segments gives the sentence back exactly.
pub open spec fn segments_of(s: Seq<u8>) -> Seq<Seq<u8>>
    decreases s.len(),
{
    if s.len() == 0 {
        seq![]
    } else {
        seq![s.take(seg_take(s))] + segments_of(s.skip(seg_take(s)))
    }
}

proof fn lemma_segments_concat(s: Seq<u8>)
    ensures
        segments_of(s).flatten() == s,
    decreases s.len(),
{
    if s.len() == 0 {
        assert(segments_of(s).flatten() =~= s);
    } else {
        let k = seg_take(s);
        lemma_seg_len_bounds(s);
        lemma_segments_concat(s.skip(k));
        let segs = segments_of(s);
        assert(segs.first() == s.take(k));
        assert(segs.drop_first() =~= segments_of(s.skip(k)));
        assert(segs.flatten() == segs.first() + segs.drop_first().flatten());
        assert(s.take(k) + s.skip(k) =~= s);
    }
}

/// Fold one piece (a sentence that fits, or one word segment) into the
/// accumulator: close the pending chunk first when the piece would not fit
/// after it, then append the piece.  No byte is dropped either way.
pub open spec fn pack_piece(chunks: Seq<Seq<u8>>, cur: Seq<u8>, piece: Seq<u8>, max: int) -> (
    Seq<Seq<u8>>,
    Seq<u8>,
) {
    if cur.len() > 0 && cur.len() + piece.len() > max {
        (chunks.push(cur), piece)
    } else {
        (chunks, cur + piece)
    }
}

/// Fold a sequence of pieces into the accumulator, in order.
pub open spec fn pack_pieces(ps: Seq<Seq<u8>>, max: int, chunks: Seq<Seq<u8>>, cur: Seq<u8>) -> (
    Seq<Seq<u8>>,
    Seq<u8>,
)
    decreases ps.len(),
{
    if ps.len() == 0 {
        (chunks, cur)
    } else {
        let folded = pack_piece(chunks, cur, ps[0], max);
        pack_pieces(ps.skip(1), max, folded.0, folded.1)
    }
}

/// The chunking recursion: consume one candidate sentence of `t`, pack it
/// whole when it fits the limit and word segment by word segment when it
/// does not, recurse on the remainder, and finally emit the pending chunk
/// when non-empty.
pub open spec fn chunks_from(t: Seq<u8>, max: int, chunks: Seq<Seq<u8>>, cur: Seq<u8>) -> Seq<
    Seq<u8>,
>
    decreases t.len(),
{
    if t.len() == 0 {
        if cur.len() == 0 {
            chunks
        } else {
            chunks.push(cur)
        }
    } else {
        let n = sentence_take(t);
        let s = t.take(n);
        if s.len() > max {
            let folded = pack_pieces(segments_of(s), max, chunks, cur);
            chunks_from(t.skip(n), max, folded.0, folded.1)
        } else {
            let folded = pack_piece(chunks, cur, s, max);
            chunks_from(t.skip(n), max, folded.0, folded.1)
        }
    }
}

/// What the chunker returns for input `t` and limit `max`.
pub open spec fn split_spec(t: Seq<u8>, max: int) -> Seq<Seq<u8>> {
    chunks_from(t, max, seq![], Seq::empty())
}

fn byte_is_space(b: u8) -> (r: bool)
    ensures
        r == is_ascii_space(b),
{
    b == 32 || b == 9 || b == 10 || b == 11 || b == 12 || b == 13
}

/// Byte length of the first candidate sentence of `text[pos..]`.
fn find_sentence_len(text: &[u8], pos: usize) -> (n: usize)
    requires
        pos < text.len(),
    ensures
        n == sentence_take(text@.skip(pos as int)),
        1 <= n <= text.len() - pos,
{
    let ghost t = text@.skip(pos as int);
    proof {
        lemma_sentence_len_bounds(t);
        lemma_sentence_len_earliest(t);
    }
    let mut i = pos;
    while i < text.len() - 1
        invariant
            pos <= i <= text.len(),
            pos < text.len(),
            t == text@.skip(pos as int),
            forall|j: int| 0 <= j < i - pos ==> !boundary_at(t, j),
        decreases text.len() - i,
    {
        let b0 = text[i];
        let b1 = text[i + 1];
        if (b0 == 46 || b0 == 33 || b0 == 63) && (b1 == 32 || b1 == 10) {
            proof {
                assert(t[i - pos] == text@[i as int]);
                assert(t[i + 1 - pos] == text@[i + 1]);
                assert(boundary_at(t, i - pos));
            }
            return i + 2 - pos;
        }
        proof {
            assert(t[i - pos] == text@[i as int]);
            if i + 1 < text.len() {
                assert(t[i + 1 - pos] == text@[i + 1]);
            }
            assert(!boundary_at(t, i - pos));
        }
        i = i + 1;
    }
    proof {
        assert forall|j: int| !boundary_at(t, j) by {
            if 0 <= j && j + 1 < t.len() {
                assert(j < i - pos);
            }
        }
    }
    text.len() - pos
}

/// Byte length of the first word segment of the oversized sentence
/// `text[q .. send]`.
fn find_seg_len(text: &[u8], q: usize, send: usize) -> (sl: usize)
    requires
        q < send <= text.len(),
    ensures
        sl == seg_take(text@.subrange(q as int, send as int)),
        1 <= sl <= send - q,
{
    let ghost u = text@.subrange(q as int, send as int);
    proof {
        lemma_seg_len_bounds(u);
        lemma_seg_len_earliest(u);
    }
    let mut i = q;
    while i < send - 1
        invariant
            q <= i <= send,
            q < send <= text.len(),
            u == text@.subrange(q as int, send as int),
            forall|j: int| 0 <= j < i - q ==> !word_boundary_at(u, j),
        decreases send - i,
    {
        let b0 = text[i];
        let b1 = text[i + 1];
        if byte_is_space(b0) && !byte_is_space(b1) {
            proof {
                assert(u[i - q] == text@[i as int]);
                assert(u[i + 1 - q] == text@[i + 1]);
                assert(word_boundary_at(u, i - q));
            }
            return i + 1 - q;
        }
        proof {
            assert(u[i - q] == text@[i as int]);
            if i + 1 < send {
                assert(u[i + 1 - q] == text@[i + 1]);
            }
            assert(!word_boundary_at(u, i - q));
        }
        i = i + 1;
    }
    proof {
        assert forall|j: int| !word_boundary_at(u, j) by {
            if 0 <= j && j + 1 < u.len() {
                assert(j < i - q);
            }
        }
    }
    send - q
}

/// Split `text` into ordered chunks of at most `max_size` bytes each (as far
/// as sentence and word boundaries allow), preferring sentence boundaries and
/// falling back to word packing for oversized sentences, every word keeping
/// its separators.
///
/// The result is exactly `split_spec(text@, max_size)`: chunking is a pure
/// function of the input and the limit.  Concatenating the chunks in order
/// reproduces the input exactly, and no chunk is empty.
#[verifier::rlimit(60)]
pub fn split_text_semantically(text: &[u8], max_size: usize) -> (chunks: Vec<Vec<u8>>)
    requires
        max_size >= 1,
    ensures
        chunks.deep_view() == split_spec(text@, max_size as int),
        chunks.deep_view().flatten() == text@,
        forall|i: int|
            0 <= i < chunks.deep_view().len() ==> #[trigger] chunks.deep_view()[i].len() > 0,
{
    proof {
        lemma_split_reassembles(text@, max_size as int);
        lemma_split_chunks_nonempty(text@, max_size as int);
    }
    let ghost max = max_size as int;
    let mut chunks: Vec<Vec<u8>> = Vec::new();
    let mut cur: Vec<u8> = Vec::new();
    let mut pos: usize = 0;
    proof {
        assert(chunks.deep_view() =~~= Seq::<Seq<u8>>::empty());
        assert(text@.skip(0) =~= text@);
    }
    while pos < text.len()
        invariant
            pos <= text.len(),
            max == max_size as int,
            max_size >= 1,
            chunks_from(text@.skip(pos as int), max, chunks.deep_view(), cur@) == split_spec(
                text@,
                max,
            ),
        decreases text.len() - pos,
    {
        let ghost t_rem = text@.skip(pos as int);
        let n = find_sentence_len(text, pos);
        let ghost s = t_rem.take(n as int);
        proof {
            assert(s =~= text@.subrange(pos as int, (pos + n) as int));
        }
        if n > max_size {
            // oversized sentence: pack it word segment by word segment
            let ghost chunks1 = chunks.deep_view();
            let ghost cur1 = cur@;
            let send = pos + n;
            let mut q = pos;
            proof {
                assert(s.skip(0) =~= s);
            }
            while q < send
                invariant
                    pos <= q <= send,
                    send <= text.len(),
                    max == max_size as int,
                    max_size >= 1,
                    s == text@.subrange(pos as int, send as int),
                    pack_pieces(segments_of(s.skip(q - pos)), max, chunks.deep_view(), cur@)
                        == pack_pieces(segments_of(s), max, chunks1, cur1),
                decreases send - q,
            {
                let ghost u = s.skip(q - pos);
                proof {
                    assert(u =~= text@.subrange(q as int, send as int));
                }
                let sl = find_seg_len(text, q, send);
                let ghost piece = u.take(seg_take(u));
                proof {
                    lemma_seg_len_bounds(u);
                    assert(segments_of(u) == seq![piece] + segments_of(u.skip(sl as int)));
                    assert(segments_of(u)[0] == piece);
                    assert(u.skip(sl as int) =~= s.skip(q + sl - pos));
                    assert(segments_of(u).skip(1) =~= segments_of(s.skip(q + sl - pos)));
                }
                pack_bytes(&mut chunks, &mut cur, text, q, q + sl, max_size);
                proof {
                    assert(pack_piece(chunks1, cur1, piece, max) == pack_piece(
                        chunks1,
                        cur1,
                        piece,
                        max,
                    ));
                    assert(piece =~= text@.subrange(q as int, (q + sl) as int));
                }
                q = q + sl;
            }
            proof {
                assert(s.skip(send - pos) =~= Seq::<u8>::empty());
                assert(segments_of(s.skip(send - pos)) =~= Seq::<Seq<u8>>::empty());
            }
        } else {
            // the sentence fits: pack it whole
            pack_bytes(&mut chunks, &mut cur, text, pos, pos + n, max_size);
        }
        proof {
            assert(t_rem.skip(n as int) =~= text@.skip((pos + n) as int));
        }
        pos = pos + n;
    }
    proof {
        assert(text@.skip(pos as int) =~= Seq::<u8>::empty());
    }
    if cur.len() > 0 {
        let ghost chunks_fin = chunks.deep_view();
        let ghost cur_fin = cur@;
        chunks.push(cur);
        proof {
            assert(chunks.deep_view() =~~= chunks_fin.push(cur_fin));
        }
    }
    chunks
}

/// Fold the piece `text[from .. to]` into the accumulator, exactly as
/// `pack_piece` dictates.
fn pack_bytes(
    chunks: &mut Vec<Vec<u8>>,
    cur: &mut Vec<u8>,
    text: &[u8],
    from: usize,
    to: usize,
    max_size: usize,
)
    requires
        from <= to <= text.len(),
        max_size >= 1,
    ensures
        ({
            let folded = pack_piece(
                old(chunks).deep_view(),
                old(cur)@,
                text@.subrange(from as int, to as int),
                max_size as int,
            );
            final(chunks).deep_view() == folded.0 && final(cur)@ == folded.1
        }),
{
    let ghost piece = text@.subrange(from as int, to as int);
    let plen = to - from;
    let emit = cur.len() > 0 && (cur.len() > max_size || plen > max_size - cur.len());
    proof {
        assert(emit == (old(cur)@.len() > 0 && old(cur)@.len() + piece.len()
            > max_size as int));
    }
    if emit {
        let ghost chunks0 = chunks.deep_view();
        let ghost cur0 = cur@;
        let mut full: Vec<u8> = Vec::new();
        core::mem::swap(&mut full, cur);
        chunks.push(full);
        proof {
            assert(chunks.deep_view() =~~= chunks0.push(cur0));
        }
    }
    let ghost cur_base = cur@;
    let mut j = from;
    while j < to
        invariant
            from <= j <= to <= text.len(),
            cur@ == cur_base + text@.subrange(from as int, j as int),
        decreases to - j,
    {
        proof {
            assert(text@.subrange(from as int, j + 1) =~= text@.subrange(from as int, j as int)
                .push(text@[j as int]));
        }
        cur.push(text[j]);
        j = j + 1;
    }
    proof {
        assert(cur@ =~= cur_base + piece);
    }
}

/// No chunk the chunker emits is ever empty, for any input and any limit.
pub proof fn lemma_split_chunks_nonempty(t: Seq<u8>, max: int)
    ensures
        forall|i: int|
            0 <= i < split_spec(t, max).len() ==> #[trigger] split_spec(t, max)[i].len() > 0,
{
    lemma_chunks_from_nonempty(t, max, seq![], Seq::empty());
}

proof fn lemma_pack_pieces_nonempty(ps: Seq<Seq<u8>>, max: int, chunks: Seq<Seq<u8>>, cur: Seq<u8>)
    requires
        forall|i: int| 0 <= i < chunks.len() ==> #[trigger] chunks[i].len() > 0,
    ensures
        forall|i: int|
            0 <= i < pack_pieces(ps, max, chunks, cur).0.len() ==> #[trigger] pack_pieces(
                ps,
                max,
                chunks,
                cur,
            ).0[i].len() > 0,
    decreases ps.len(),
{
    if ps.len() > 0 {
        let folded = pack_piece(chunks, cur, ps[0], max);
        assert forall|i: int| 0 <= i < folded.0.len() implies #[trigger] folded.0[i].len()
            > 0 by {
            if i == chunks.len() {
                assert(folded.0[i] == cur);
            }
        }
        lemma_pack_pieces_nonempty(ps.skip(1), max, folded.0, folded.1);
        assert(pack_pieces(ps, max, chunks, cur) == pack_pieces(
            ps.skip(1),
            max,
            folded.0,
            folded.1,
        ));
    }
}

proof fn lemma_chunks_from_nonempty(t: Seq<u8>, max: int, chunks: Seq<Seq<u8>>, cur: Seq<u8>)
    requires
        forall|i: int| 0 <= i < chunks.len() ==> #[trigger] chunks[i].len() > 0,
    ensures
        forall|i: int|
            0 <= i < chunks_from(t, max, chunks, cur).len() ==> #[trigger] chunks_from(
                t,
                max,
                chunks,
                cur,
            )[i].len() > 0,
    decreases t.len(),
{
    if t.len() > 0 {
        let n = sentence_take(t);
        let s = t.take(n);
        if s.len() > max {
            lemma_pack_pieces_nonempty(segments_of(s), max, chunks, cur);
            let folded = pack_pieces(segments_of(s), max, chunks, cur);
            lemma_chunks_from_nonempty(t.skip(n), max, folded.0, folded.1);
            assert(chunks_from(t, max, chunks, cur) == chunks_from(
                t.skip(n),
                max,
                folded.0,
                folded.1,
            ));
        } else {
            let folded = pack_piece(chunks, cur, s, max);
            assert forall|i: int| 0 <= i < folded.0.len() implies #[trigger] folded.0[i].len()
                > 0 by {
                if i == chunks.len() {
                    assert(folded.0[i] == cur);
                }
            }
            lemma_chunks_from_nonempty(t.skip(n), max, folded.0, folded.1);
            assert(chunks_from(t, max, chunks, cur) == chunks_from(
                t.skip(n),
                max,
                folded.0,
                folded.1,
            ));
        }
    }
}

proof fn lemma_pack_pieces_concat(ps: Seq<Seq<u8>>, max: int, chunks: Seq<Seq<u8>>, cur: Seq<u8>)
    ensures
        pack_pieces(ps, max, chunks, cur).0.flatten() + pack_pieces(ps, max, chunks, cur).1
            == chunks.flatten() + cur + ps.flatten(),
    decreases ps.len(),
{
    broadcast use Seq::lemma_flatten_push;

    if ps.len() == 0 {
        assert(chunks.flatten() + cur + ps.flatten() =~= chunks.flatten() + cur);
    } else {
        let folded = pack_piece(chunks, cur, ps[0], max);
        assert(folded.0.flatten() + folded.1 =~= chunks.flatten() + cur + ps[0]);
        lemma_pack_pieces_concat(ps.skip(1), max, folded.0, folded.1);
        assert(pack_pieces(ps, max, chunks, cur) == pack_pieces(
            ps.skip(1),
            max,
            folded.0,
            folded.1,
        ));
        assert(ps.flatten() == ps.first() + ps.drop_first().flatten());
        assert(ps.drop_first() =~= ps.skip(1));
        assert(chunks.flatten() + cur + ps[0] + ps.skip(1).flatten() =~= chunks.flatten() + cur
            + ps.flatten());
    }
}

proof fn lemma_chunks_from_concat(t: Seq<u8>, max: int, chunks: Seq<Seq<u8>>, cur: Seq<u8>)
    ensures
        chunks_from(t, max, chunks, cur).flatten() == chunks.flatten() + cur + t,
    decreases t.len(),
{
    broadcast use Seq::lemma_flatten_push;

    if t.len() == 0 {
        if cur.len() == 0 {
            assert(chunks.flatten() + cur + t =~= chunks.flatten());
        } else {
            assert(chunks.flatten() + cur + t =~= chunks.flatten() + cur);
        }
    } else {
        let n = sentence_take(t);
        let s = t.take(n);
        assert(t =~= s + t.skip(n));
        if s.len() > max {
            lemma_pack_pieces_concat(segments_of(s), max, chunks, cur);
            lemma_segments_concat(s);
            let folded = pack_pieces(segments_of(s), max, chunks, cur);
            lemma_chunks_from_concat(t.skip(n), max, folded.0, folded.1);
            assert(chunks_from(t, max, chunks, cur) == chunks_from(
                t.skip(n),
                max,
                folded.0,
                folded.1,
            ));
            assert(folded.0.flatten() + folded.1 + t.skip(n) =~= chunks.flatten() + cur + t);
        } else {
            let folded = pack_piece(chunks, cur, s, max);
            lemma_chunks_from_concat(t.skip(n), max, folded.0, folded.1);
            assert(chunks_from(t, max, chunks, cur) == chunks_from(
                t.skip(n),
                max,
                folded.0,
                folded.1,
            ));
            assert(folded.0.flatten() + folded.1 + t.skip(n) =~= chunks.flatten() + cur + t);
        }
    }
}

/// The chunks concatenate back to the input exactly — whitespace preserved —
/// for every input and every limit.
pub proof fn lemma_split_reassembles(t: Seq<u8>, max: int)
    ensures
        split_spec(t, max).flatten() == t,
{
    lemma_chunks_from_concat(t, max, seq![], Seq::empty());
    assert(seq![].flatten() + Seq::<u8>::empty() + t =~= t) by {
        assert(Seq::<Seq<u8>>::empty().flatten() =~= Seq::<u8>::empty());
        assert(seq![].flatten() =~= Seq::<Seq<u8>>::empty().flatten());
    }
}

/// Chunking the same input with the same limit always yields the same chunk
/// sequence: any two results that satisfy the chunker's contract are equal.
pub proof fn lemma_split_deterministic(
    t: Seq<u8>,
    max: int,
    r1: Seq<Seq<u8>>,
    r2: Seq<Seq<u8>>,
)
    requires
        r1 == split_spec(t, max),
        r2 == split_spec(t, max),
    ensures
        r1 == r2,
{
}

/// Every piece the packing handles fits within `max` bytes: each sentence
/// fits whole, or each of its word segments (word plus trailing separators)
/// does.
pub open spec fn pieces_fit(t: Seq<u8>, max: int) -> bool
    decreases t.len(),
{
    if t.len() == 0 {
        true
    } else {
        let n = sentence_take(t);
        let s = t.take(n);
        &&& (s.len() <= max || all_within(segments_of(s), max))
        &&& pieces_fit(t.skip(n), max)
    }
}

/// Every piece of `ps` has at most `max` bytes.
pub open spec fn all_within(ps: Seq<Seq<u8>>, max: int) -> bool {
    forall|i: int| 0 <= i < ps.len() ==> (#[trigger] ps[i]).len() <= max
}

proof fn lemma_pack_pieces_bounded(ps: Seq<Seq<u8>>, max: int, chunks: Seq<Seq<u8>>, cur: Seq<u8>)
    requires
        max >= 1,
        all_within(ps, max),
        cur.len() <= max,
        forall|i: int| 0 <= i < chunks.len() ==> #[trigger] chunks[i].len() <= max,
    ensures
        forall|i: int|
            0 <= i < pack_pieces(ps, max, chunks, cur).0.len() ==> #[trigger] pack_pieces(
                ps,
                max,
                chunks,
                cur,
            ).0[i].len() <= max,
        pack_pieces(ps, max, chunks, cur).1.len() <= max,
    decreases ps.len(),
{
    if ps.len() > 0 {
        assert(ps[0].len() <= max);
        let folded = pack_piece(chunks, cur, ps[0], max);
        assert(folded.1.len() <= max);
        assert forall|i: int| 0 <= i < folded.0.len() implies #[trigger] folded.0[i].len()
            <= max by {
            if i == chunks.len() {
                assert(folded.0[i] == cur);
            }
        }
        assert(all_within(ps.skip(1), max)) by {
            assert forall|i: int| 0 <= i < ps.skip(1).len() implies (#[trigger] ps.skip(
                1,
            )[i]).len() <= max by {
                assert(ps.skip(1)[i] == ps[i + 1]);
            }
        }
        lemma_pack_pieces_bounded(ps.skip(1), max, folded.0, folded.1);
        assert(pack_pieces(ps, max, chunks, cur) == pack_pieces(
            ps.skip(1),
            max,
            folded.0,
            folded.1,
        ));
    }
}

proof fn lemma_chunks_from_bounded(t: Seq<u8>, max: int, chunks: Seq<Seq<u8>>, cur: Seq<u8>)
    requires
        max >= 1,
        pieces_fit(t, max),
        cur.len() <= max,
        forall|i: int| 0 <= i < chunks.len() ==> #[trigger] chunks[i].len() <= max,
    ensures
        forall|i: int|
            0 <= i < chunks_from(t, max, chunks, cur).len() ==> #[trigger] chunks_from(
                t,
                max,
                chunks,
                cur,
            )[i].len() <= max,
    decreases t.len(),
{
    if t.len() > 0 {
        let n = sentence_take(t);
        let s = t.take(n);
        if s.len() > max {
            lemma_pack_pieces_bounded(segments_of(s), max, chunks, cur);
            let folded = pack_pieces(segments_of(s), max, chunks, cur);
            lemma_chunks_from_bounded(t.skip(n), max, folded.0, folded.1);
            assert(chunks_from(t, max, chunks, cur) == chunks_from(
                t.skip(n),
                max,
                folded.0,
                folded.1,
            ));
        } else {
            let folded = pack_piece(chunks, cur, s, max);
            assert(folded.1.len() <= max);
            assert forall|i: int| 0 <= i < folded.0.len() implies #[trigger] folded.0[i].len()
                <= max by {
                if i == chunks.len() {
                    assert(folded.0[i] == cur);
                }
            }
            lemma_chunks_from_bounded(t.skip(n), max, folded.0, folded.1);
            assert(chunks_from(t, max, chunks, cur) == chunks_from(
                t.skip(n),
                max,
                folded.0,
                folded.1,
            ));
        }
    }
}

/// The chunk-length bound in its full generality: whenever every piece fits
/// the limit — every sentence whole, or every word segment of an oversized
/// sentence — no chunk exceeds the limit.  Only an indivisible segment
/// longer than the limit escapes the bound, carried whole rather than
/// dropped.
pub proof fn lemma_split_chunks_bounded(t: Seq<u8>, max: int)
    requires
        max >= 1,
        pieces_fit(t, max),
    ensures
        forall|i: int|
            0 <= i < split_spec(t, max).len() ==> #[trigger] split_spec(t, max)[i].len() <= max,
{
    lemma_chunks_from_bounded(t, max, seq![], Seq::empty());
}

/// The text consists of exactly `n` candidate sentences of `len_s` bytes
/// each: scanning finds a sentence of that length at every step until the
/// text is exhausted.
pub open spec fn uniform_sentences(t: Seq<u8>, n: int, len_s: int) -> bool
    decreases n,
{
    if n <= 0 {
        t.len() == 0
    } else {
        t.len() > 0 && sentence_take(t) == len_s && uniform_sentences(
            t.skip(len_s),
            n - 1,
            len_s,
        )
    }
}

proof fn lemma_uniform_chunks_from(
    t: Seq<u8>,
    n: int,
    len_s: int,
    max: int,
    chunks: Seq<Seq<u8>>,
    cur: Seq<u8>,
    m: int,
)
    requires
        1 <= len_s <= max,
        n >= 0,
        uniform_sentences(t, n, len_s),
        0 <= m <= max / len_s,
        cur.len() == m * len_s,
    ensures
        chunks_from(t, max, chunks, cur).len() == chunks.len() + (n + m + max / len_s - 1) / (
        max / len_s),
    decreases n,
{
    let k = max / len_s;
    lemma_div_non_zero(max, len_s);
    lemma_fundamental_div_mod(max, len_s);
    lemma_mod_bound(max, len_s);
    assert(len_s * k <= max && max < len_s * (k + 1)) by (nonlinear_arith)
        requires
            max == len_s * k + (max % len_s),
            0 <= max % len_s < len_s,
    ;
    if n == 0 {
        if m == 0 {
            assert(cur.len() == 0);
            lemma_basic_div(k - 1, k);
        } else {
            assert(cur.len() > 0) by (nonlinear_arith)
                requires
                    cur.len() == m * len_s,
                    m >= 1,
                    len_s >= 1,
            ;
            lemma_basic_div(m - 1, k);
            lemma_div_plus_one(m - 1, k);
            assert((0 + m + k - 1) / k == 1);
        }
    } else {
        let s = t.take(sentence_take(t));
        assert(s.len() == len_s);
        let close = cur.len() > 0 && cur.len() + s.len() > max;
        if m == 0 {
            assert(!close);
        } else {
            assert(cur.len() > 0) by (nonlinear_arith)
                requires
                    cur.len() == m * len_s,
                    m >= 1,
                    len_s >= 1,
            ;
            if m == k {
                assert(cur.len() + s.len() > max) by (nonlinear_arith)
                    requires
                        cur.len() == m * len_s,
                        s.len() == len_s,
                        m == k,
                        max < len_s * (k + 1),
                ;
            } else {
                assert(cur.len() + s.len() <= max) by (nonlinear_arith)
                    requires
                        cur.len() == m * len_s,
                        s.len() == len_s,
                        1 <= m < k,
                        len_s >= 1,
                        len_s * k <= max,
                ;
            }
        }
        assert(close <==> m == k && m >= 1);
        let folded = pack_piece(chunks, cur, s, max);
        let m1: int = if close {
            1
        } else {
            m + 1
        };
        assert(folded.1.len() == m1 * len_s) by (nonlinear_arith)
            requires
                folded.1.len() == (if close {
                    s.len() as int
                } else {
                    cur.len() + s.len() as int
                }),
                cur.len() == m * len_s,
                s.len() == len_s,
                m1 == (if close {
                    1int
                } else {
                    m + 1
                }),
        ;
        assert(m1 <= k);
        lemma_uniform_chunks_from(t.skip(len_s), n - 1, len_s, max, folded.0, folded.1, m1);
        assert(chunks_from(t, max, chunks, cur) == chunks_from(
            t.skip(len_s),
            max,
            folded.0,
            folded.1,
        ));
        if close {
            lemma_div_plus_one(n + k - 1, k);
            assert((n + m + k - 1) / k == 1 + (n + k - 1) / k);
        }
    }
}

/// Greedy sentence packing in closed form: a text of `n` equal candidate
/// sentences of `len_s` bytes, each within the limit, splits into exactly
/// `ceil(n / (max / len_s))` chunks — full chunks of `max / len_s`
/// sentences, then the remainder.  (For 9,500 bytes of 100-byte sentences
/// under a 3,800-byte limit: three chunks.)
pub proof fn lemma_uniform_sentence_chunk_count(t: Seq<u8>, n: int, len_s: int, max: int)
    requires
        1 <= len_s <= max,
        n >= 1,
        uniform_sentences(t, n, len_s),
    ensures
        split_spec(t, max).len() == (n + max / len_s - 1) / (max / len_s),
{
    lemma_uniform_chunks_from(t, n, len_s, max, seq![], Seq::empty(), 0);
}

/// A text whose sentence boundaries sit exactly two bytes before each
/// multiple of `len_s` scans as `n` equal sentences of `len_s` bytes: the
/// constructive way to discharge [`uniform_sentences`].
pub proof fn lemma_equal_sentences_uniform(t: Seq<u8>, n: int, len_s: int)
    requires
        len_s >= 2,
        n >= 0,
        t.len() == n * len_s,
        forall|p: int|
            0 <= p < t.len() ==> (#[trigger] boundary_at(t, p) <==> p % len_s == len_s - 2),
    ensures
        uniform_sentences(t, n, len_s),
    decreases n,
{
    if n <= 0 {
        assert(t.len() == 0) by (nonlinear_arith)
            requires
                t.len() == n * len_s,
                n <= 0,
                len_s >= 1,
                t.len() >= 0,
        ;
    } else {
        assert(t.len() >= len_s) by (nonlinear_arith)
            requires
                t.len() == n * len_s,
                n >= 1,
                len_s >= 1,
        ;
        // the first boundary is at len_s - 2 and nowhere earlier
        lemma_small_mod((len_s - 2) as nat, len_s as nat);
        assert(boundary_at(t, len_s - 2));
        assert forall|j: int| 0 <= j < len_s - 2 implies !boundary_at(t, j) by {
            lemma_small_mod(j as nat, len_s as nat);
        }
        // so the scan yields exactly len_s
        lemma_sentence_len_bounds(t);
        lemma_sentence_len_earliest(t);
        let sl = sentence_len(t);
        if sl < len_s {
            if sl >= 2 {
                assert(boundary_at(t, sl - 2));
                lemma_small_mod((sl - 2) as nat, len_s as nat);
            }
        } else if sl > len_s {
            assert(!boundary_at(t, len_s - 2));
        }
        assert(sentence_take(t) == len_s);
        // the remainder has the same structure, one sentence shorter
        let rest = t.skip(len_s);
        assert(rest.len() == (n - 1) * len_s) by (nonlinear_arith)
            requires
                rest.len() == t.len() - len_s,
                t.len() == n * len_s,
        ;
        assert forall|p: int|
            0 <= p < rest.len() implies (#[trigger] boundary_at(rest, p) <==> p % len_s == len_s
                - 2) by {
            assert(p + 1 < rest.len() ==> rest[p] == t[p + len_s] && rest[p + 1] == t[p + len_s
                + 1]);
            assert(boundary_at(rest, p) == boundary_at(t, p + len_s));
            lemma_mod_add_multiples_vanish(p, len_s);
        }
        lemma_equal_sentences_uniform(rest, n - 1, len_s);
    }
}

} // verus!
