//! Laws of the tokenizer that relate successive calls.
use vstd::prelude::*;
use crate::lexical::{
    comment_len, indicator, is_space, lemma_comment_end, lemma_comment_len_prefix, lemma_lex_comment,
    lemma_run, lemma_version_bound, lex, lex_lexeme, run, starts_with, yaml_keyword, ByteClass,
};
use crate::token::{byte_chars, TokenView};

verus! {

/// Whether `d` is made of whitespace and comments, each comment running from
/// its `#` through its line feed; where `open_end` holds, the last comment
/// may instead run to the end of `d`.
pub open spec fn is_filler(d: Seq<u8>, open_end: bool) -> bool
    decreases d.len(),
{
    if d.len() == 0 {
        true
    } else if is_space(d[0]) {
        is_filler(d.skip(1), open_end)
    } else if d[0] == 0x23 { // `#`
        let k = comment_len(d.skip(1)) as int;
        if 1 + k <= d.len() && k >= 1 && d[k as int] == 0x0a { // line feed
            is_filler(d.skip(1 + k), open_end)
        } else {
            open_end && 1 + k == d.len()
        }
    } else {
        false
    }
}

/// Whether `piece` is the source text of the token `t`: the indicator byte
/// or document marker it stands for, the `&` or `*` and the name of an
/// anchor or alias, the text of a scalar, or a directive from its `%` on.
pub open spec fn is_text_of(t: TokenView, piece: Seq<u8>) -> bool {
    match t {
        TokenView::DocumentStart => piece == seq![0x2du8, 0x2du8, 0x2du8],
        TokenView::DocumentEnd => piece == seq![0x2eu8, 0x2eu8, 0x2eu8],
        TokenView::SequenceEntry => piece == seq![0x2du8],
        TokenView::Anchor(x) => piece.len() >= 1 && piece[0] == 0x26 && byte_chars(piece.skip(1))
            == x,
        TokenView::Alias(x) => piece.len() >= 1 && piece[0] == 0x2a && byte_chars(piece.skip(1))
            == x,
        TokenView::Scalar(x) => byte_chars(piece) == x,
        TokenView::YamlDirective(_, _) => piece.len() >= 1 && piece[0] == 0x25,
        TokenView::Other => piece.len() >= 1 && piece[0] == 0x25,
        _ => piece.len() == 1 && indicator(piece[0]) == Some(t),
    }
}

/// The stream left after `k` calls of the tokenizer on `s`.
pub open spec fn remaining(s: Seq<u8>, k: nat) -> Seq<u8>
    decreases k,
{
    if k == 0 {
        s
    } else {
        let r = remaining(s, (k - 1) as nat);
        r.skip(lex(r).1 as int)
    }
}

/// The bytes retired by the first `k` calls of the tokenizer on `s`, in the
/// order the calls retired them.
pub open spec fn retired(s: Seq<u8>, k: nat) -> Seq<u8>
    decreases k,
{
    if k == 0 {
        Seq::empty()
    } else {
        let r = remaining(s, (k - 1) as nat);
        retired(s, (k - 1) as nat) + r.take(lex(r).1 as int)
    }
}

/// What one lexeme retires is its own text, and no more than the stream.
proof fn lemma_lexeme_text(s: Seq<u8>)
    requires
        s.len() > 0,
    ensures
        lex_lexeme(s).1 <= s.len(),
        is_text_of(lex_lexeme(s).0, s.subrange(0, lex_lexeme(s).1 as int)),
{
    let c = s[0];
    let rest = s.skip(1);
    let n = lex_lexeme(s).1 as int;
    let piece = s.subrange(0, n);
    lemma_run(rest, ByteClass::NameByte);
    lemma_run(s, ByteClass::ScalarByte);
    if indicator(c) is Some {
        assert(piece =~= seq![c]);
    } else if c == 0x2d || c == 0x2e { // `-`, `.`
        if n == 3 {
            assert(rest.subrange(0, 2) == piece.skip(1));
            assert(piece =~= seq![c, c, c]);
        } else if c == 0x2d { // `-`
            assert(piece =~= seq![c]);
        } else {
            assert(piece =~= s.take(n));
        }
    } else if c == 0x26 || c == 0x2a { // `&`, `*`
        assert(piece.skip(1) =~= rest.take(run(rest, ByteClass::NameByte) as int));
    } else if c == 0x25 { // `%`
        if starts_with(rest, yaml_keyword()) {
            lemma_version_bound(rest.skip(5));
        }
    } else {
        assert(piece =~= s.take(n));
    }
}

/// Every byte that one call retires is accounted for: at exhaustion the call
/// retires the whole stream, which is whitespace and comments alone;
/// otherwise it retires whitespace and comments followed by the text of the
/// token it yields.
pub proof fn lemma_retired_piece(s: Seq<u8>)
    ensures
        lex(s).1 <= s.len(),
        lex(s).0 is None ==> lex(s).1 == s.len() && is_filler(s, true),
        lex(s).0 matches Some(t) ==> exists|d: int|
            0 <= d <= lex(s).1 && is_filler(#[trigger] s.take(d), false) && is_text_of(
                t,
                s.subrange(d, lex(s).1 as int),
            ),
    decreases s.len(),
{
    if s.len() == 0 {
    } else if is_space(s[0]) {
        let t = s.skip(1);
        lemma_retired_piece(t);
        if lex(t).0 is Some {
            let d = choose|d: int|
                0 <= d <= lex(t).1 && is_filler(#[trigger] t.take(d), false) && is_text_of(
                    lex(t).0->0,
                    t.subrange(d, lex(t).1 as int),
                );
            assert(s.take(d + 1).skip(1) =~= t.take(d));
            assert(s.subrange(d + 1, lex(s).1 as int) =~= t.subrange(d, lex(t).1 as int));
            assert(is_filler(s.take(d + 1), false));
        }
    } else if s[0] == 0x23 { // `#`
        let t = s.skip(1);
        let k = comment_len(t) as int;
        lemma_lex_comment(t);
        lemma_comment_end(t);
        let u = t.skip(k);
        assert(u =~= s.skip(1 + k));
        lemma_retired_piece(u);
        if k >= 1 && t[k - 1] == 0x0a { // line feed
            if lex(u).0 is Some {
                let d = choose|d: int|
                    0 <= d <= lex(u).1 && is_filler(#[trigger] u.take(d), false) && is_text_of(
                        lex(u).0->0,
                        u.subrange(d, lex(u).1 as int),
                    );
                let w = s.take(1 + k + d);
                assert(w.skip(1) =~= t.take(k + d));
                lemma_comment_len_prefix(t, k + d);
                assert(w.skip(1 + k) =~= u.take(d));
                assert(is_filler(w, false));
                assert(s.subrange(1 + k + d, lex(s).1 as int) =~= u.subrange(d, lex(u).1 as int));
            }
        }
    } else {
        lemma_lexeme_text(s);
        assert(s.take(0) =~= Seq::<u8>::empty());
    }
}

/// The calls of the tokenizer neither lose nor repeat a byte: what the
/// first `k` calls retired, in order, followed by what remains, is the
/// stream itself.
pub proof fn lemma_no_byte_lost(s: Seq<u8>, k: nat)
    ensures
        retired(s, k) + remaining(s, k) == s,
    decreases k,
{
    if k == 0 {
        assert(Seq::<u8>::empty() + s =~= s);
    } else {
        lemma_no_byte_lost(s, (k - 1) as nat);
        let r = remaining(s, (k - 1) as nat);
        let n = lex(r).1 as int;
        lemma_retired_piece(r);
        assert(retired(s, (k - 1) as nat) + r.take(n) + r.skip(n) =~= retired(s, (k - 1) as nat)
            + r);
    }
}

/// Once a call finds the stream exhausted, every later call finds it
/// exhausted too.
pub proof fn lemma_exhaustion_is_final(s: Seq<u8>, j: nat, k: nat)
    requires
        j <= k,
        lex(remaining(s, j)).0 is None,
    ensures
        lex(remaining(s, k)).0 is None,
    decreases k - j,
{
    if j < k {
        let r = remaining(s, j);
        lemma_retired_piece(r);
        assert(remaining(s, j + 1) =~= Seq::<u8>::empty());
        lemma_exhaustion_is_final(s, j + 1, k);
    }
}

} // verus!
