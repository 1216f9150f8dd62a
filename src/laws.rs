use vstd::prelude::*;
use vstd::utf8::{decode_utf8, valid_utf8};
use crate::error::ParseError;
use crate::parse::{decoded_all, lemma_ascii_valid_utf8};
use crate::scan::{
    assembled, fragments, fragments_from, is_blank, is_digit, is_letter, is_quote, is_reserved,
    is_word_byte, lemma_assembled_fails_after, lemma_scan_stop, lemma_string_end,
    lemma_token_advances, lemma_word_end, lookup, quoted, sanitized, scan, string_end, token,
    word_end, FragmentModel, BACKSLASH, DOLLAR, DQUOTE, SQUOTE,
};

verus! {

/// Without a marker in the input, a scan that stops at markers runs as one that does not.
proof fn lemma_scan_without_markers(s: Seq<u8>, i: int)
    requires
        0 <= i <= s.len(),
        forall|k: int| 0 <= k < s.len() ==> #[trigger] s[k] != DOLLAR,
    ensures
        scan(s, i, true) == scan(s, i, false),
    decreases s.len() - i,
{
    if i < s.len() && token(s, i) is Some {
        lemma_token_advances(s, i);
        lemma_scan_without_markers(s, token(s, i).unwrap().1);
    }
}

/// For input without placeholder markers, assembling its fragments with an
/// empty replacement table gives exactly its sanitized text; and where
/// sanitizing fails, fragmenting fails with the same error.
pub proof fn lemma_fragments_without_markers(s: Seq<u8>)
    requires
        forall|k: int| 0 <= k < s.len() ==> #[trigger] s[k] != DOLLAR,
    ensures
        match sanitized(s) {
            None => fragments(s) == Err::<Seq<FragmentModel>, ParseError>(
                ParseError::UnterminatedString,
            ),
            Some(text) => if valid_utf8(text) {
                fragments(s) matches Ok(fs) && assembled(decoded_all(fs), Seq::empty()) == Ok::<
                    Seq<char>,
                    Seq<char>,
                >(decode_utf8(text))
            } else {
                fragments(s) == Err::<Seq<FragmentModel>, ParseError>(ParseError::InvalidUtf8)
            },
        },
{
    lemma_scan_without_markers(s, 0);
    if s.len() == 0 {
        assert(decode_utf8(Seq::<u8>::empty()) =~= Seq::<char>::empty());
        assert(fragments(s) == Ok::<Seq<FragmentModel>, ParseError>(Seq::empty()));
        assert(decoded_all(Seq::empty()).len() == 0);
        assert(sanitized(s) == Some(Seq::<u8>::empty()));
    } else if scan(s, 0, true) is Some {
        lemma_scan_stop(s, 0, true);
        let text = scan(s, 0, true).unwrap().0;
        assert(scan(s, 0, true).unwrap().1 == s.len());
        if valid_utf8(text) {
            let fs = fragments(s).unwrap();
            let d = decoded_all(fs);
            if text.len() > 0 {
                assert(fs =~= seq![(false, text)]);
                assert(d.len() == 1);
                assert(d[0] == (false, decode_utf8(text)));
                assert(d.drop_last() =~= Seq::<(bool, Seq<char>)>::empty());
                assert(Seq::<char>::empty() + decode_utf8(text) =~= decode_utf8(text));
                assert(assembled(d.drop_last(), Seq::empty()) == Ok::<Seq<char>, Seq<char>>(
                    Seq::empty(),
                ));
                assert(d.last() == (false, decode_utf8(text)));
            } else {
                assert(fs.len() == 0);
                assert(d.len() == 0);
                assert(decode_utf8(text) =~= Seq::<char>::empty());
            }
            assert(assembled(d, Seq::empty()) == Ok::<Seq<char>, Seq<char>>(decode_utf8(text)));
        } else {
            assert(fragments(s) == Err::<Seq<FragmentModel>, ParseError>(ParseError::InvalidUtf8));
        }
        assert(sanitized(s) == Some(text));
    } else {
        assert(sanitized(s) is None);
        assert(fragments(s) == Err::<Seq<FragmentModel>, ParseError>(ParseError::UnterminatedString));
    }
}

/// A placeholder whose name the replacement table lacks makes assembly fail:
/// no placeholder is ever filled with empty text.
pub proof fn lemma_missing_replacement_fails(
    frags: Seq<(bool, Seq<char>)>,
    table: Seq<(Seq<char>, Seq<char>)>,
    k: int,
)
    requires
        0 <= k < frags.len(),
        frags[k].0,
        lookup(table, frags[k].1) is None,
    ensures
        assembled(frags, table) is Err,
{
    let next = frags.subrange(0, k + 1);
    assert(next.drop_last() =~= frags.subrange(0, k));
    assert(next.last() == frags[k]);
    lemma_assembled_fails_after(frags, table, k + 1);
}

/// A scan result read from `a` bytes further into the input.
pub open spec fn shifted(r: Option<(Seq<u8>, int)>, a: int) -> Option<(Seq<u8>, int)> {
    match r {
        Some((text, k)) => Some((text, k + a)),
        None => None,
    }
}

proof fn lemma_word_end_suffix(s: Seq<u8>, a: int, i: int)
    requires
        0 <= a <= i <= s.len(),
    ensures
        word_end(s, i) == word_end(s.subrange(a, s.len() as int), i - a) + a,
    decreases s.len() - i,
{
    if i < s.len() && is_word_byte(s[i]) {
        lemma_word_end_suffix(s, a, i + 1);
    }
}

proof fn lemma_string_end_suffix(s: Seq<u8>, a: int, i: int, q: u8)
    requires
        0 <= a <= i,
        a <= s.len(),
    ensures
        string_end(s, i, q) == match string_end(s.subrange(a, s.len() as int), i - a, q) {
            Some(c) => Some(c + a),
            None => None::<int>,
        },
    decreases s.len() - i,
{
    if i < s.len() && s[i] != q {
        if s[i] == BACKSLASH {
            if i + 1 < s.len() {
                lemma_string_end_suffix(s, a, i + 2, q);
            }
        } else {
            lemma_string_end_suffix(s, a, i + 1, q);
        }
    }
}

proof fn lemma_token_suffix(s: Seq<u8>, a: int, i: int)
    requires
        0 <= a <= i < s.len(),
    ensures
        token(s, i) == shifted(token(s.subrange(a, s.len() as int), i - a), a),
{
    let t = s.subrange(a, s.len() as int);
    let b = s[i];
    assert(t[i - a] == b);
    if is_quote(b) {
        lemma_string_end_suffix(s, a, i + 1, b);
        if string_end(s, i + 1, b) is Some {
            let c = string_end(s, i + 1, b).unwrap();
            lemma_string_end(s, i + 1, b);
            assert(s.subrange(i + 1, c) =~= t.subrange(i + 1 - a, c - a));
        }
    } else if is_letter(b) || is_digit(b) {
        lemma_word_end_suffix(s, a, i);
        lemma_word_end(s, i);
        assert(s.subrange(i, word_end(s, i)) =~= t.subrange(i - a, word_end(t, i - a)));
    }
}

/// A scan from `i` reads nothing before `i`.
proof fn lemma_scan_suffix(s: Seq<u8>, a: int, i: int, stop: bool)
    requires
        0 <= a <= i <= s.len(),
    ensures
        scan(s, i, stop) == shifted(scan(s.subrange(a, s.len() as int), i - a, stop), a),
    decreases s.len() - i,
{
    let t = s.subrange(a, s.len() as int);
    if i < s.len() {
        assert(t[i - a] == s[i]);
        lemma_token_suffix(s, a, i);
        if !(stop && s[i] == DOLLAR) && token(s, i) is Some {
            lemma_token_advances(s, i);
            lemma_scan_suffix(s, a, token(s, i).unwrap().1, stop);
        }
    }
}

/// The sanitized form of `rest` with `text` put in front; `None` where it fails.
pub open spec fn after(text: Seq<u8>, rest: Seq<u8>) -> Option<Seq<u8>> {
    match sanitized(rest) {
        Some(r) => Some(text + r),
        None => None,
    }
}

/// Sanitizing `s` is `piece` followed by sanitizing what follows the token at 0.
proof fn lemma_first_token(s: Seq<u8>, piece: Seq<u8>, n: int)
    requires
        s.len() > 0,
        token(s, 0) == Some((piece, n)),
    ensures
        sanitized(s) == after(piece, s.subrange(n, s.len() as int)),
{
    lemma_token_advances(s, 0);
    lemma_scan_suffix(s, n, n, false);
}

/// Outside strings, whitespace vanishes: a blank in front of any input changes
/// nothing in its sanitized form.
pub proof fn lemma_blank_dropped(b: u8, rest: Seq<u8>)
    requires
        is_blank(b),
    ensures
        sanitized(seq![b] + rest) == sanitized(rest),
{
    let s = seq![b] + rest;
    assert(s[0] == b);
    lemma_first_token(s, Seq::empty(), 1);
    assert(s.subrange(1, s.len() as int) =~= rest);
    match sanitized(rest) {
        Some(r) => {
            assert(Seq::<u8>::empty() + r =~= r);
        },
        None => {},
    }
}

/// Input with no quote at all sanitizes to text with no blank in it.
pub proof fn lemma_no_blanks_without_strings(s: Seq<u8>)
    requires
        forall|k: int| 0 <= k < s.len() ==> !is_quote(#[trigger] s[k]),
    ensures
        sanitized(s) matches Some(out) && forall|k: int| 0 <= k < out.len() ==> !is_blank(
            #[trigger] out[k],
        ),
{
    lemma_no_blanks_from(s, 0);
}

proof fn lemma_no_blanks_from(s: Seq<u8>, i: int)
    requires
        0 <= i <= s.len(),
        forall|k: int| 0 <= k < s.len() ==> !is_quote(#[trigger] s[k]),
    ensures
        scan(s, i, false) matches Some((out, _)) && forall|k: int|
            0 <= k < out.len() ==> !is_blank(#[trigger] out[k]),
    decreases s.len() - i,
{
    if i < s.len() {
        let b = s[i];
        assert(!is_quote(b));
        if is_letter(b) || is_digit(b) {
            lemma_word_end(s, i);
        }
        let (piece, j) = token(s, i).unwrap();
        assert forall|k: int| 0 <= k < piece.len() implies !is_blank(#[trigger] piece[k]) by {
            if is_letter(b) || is_digit(b) {
                let w = s.subrange(i, word_end(s, i));
                if !is_digit(b) && !is_reserved(w) && 0 < k < piece.len() - 1 {
                    assert(piece[k] == w[k - 1]);
                }
            }
        }
        lemma_token_advances(s, i);
        lemma_no_blanks_from(s, j);
        let rest = scan(s, j, false).unwrap().0;
        assert forall|k: int| 0 <= k < (piece + rest).len() implies !is_blank(
            #[trigger] (piece + rest)[k],
        ) by {
            if k >= piece.len() {
                assert((piece + rest)[k] == rest[k - piece.len()]);
            } else {
                assert((piece + rest)[k] == piece[k]);
            }
        }
    }
}

/// A string body in which every `q` and every backslash is escaped.
pub open spec fn escaped_body(b: Seq<u8>, q: u8) -> bool
    decreases b.len(),
{
    if b.len() == 0 {
        true
    } else if b[0] == q {
        false
    } else if b[0] == BACKSLASH {
        b.len() >= 2 && escaped_body(b.subrange(2, b.len() as int), q)
    } else {
        escaped_body(b.subrange(1, b.len() as int), q)
    }
}

proof fn lemma_escaped_body_end(s: Seq<u8>, a: int, body: Seq<u8>, q: u8)
    requires
        0 <= a,
        a + body.len() < s.len(),
        s.subrange(a, a + body.len()) == body,
        s[a + body.len()] == q,
        q != BACKSLASH,
        escaped_body(body, q),
    ensures
        string_end(s, a, q) == Some(a + body.len()),
    decreases body.len(),
{
    if body.len() > 0 {
        assert(s[a] == body[0]);
        if body[0] == BACKSLASH {
            let rest = body.subrange(2, body.len() as int);
            assert(s.subrange(a + 2, a + 2 + rest.len()) =~= rest);
            lemma_escaped_body_end(s, a + 2, rest, q);
        } else {
            let rest = body.subrange(1, body.len() as int);
            assert(s.subrange(a + 1, a + 1 + rest.len()) =~= rest);
            lemma_escaped_body_end(s, a + 1, rest, q);
        }
    }
}

/// A string opened by either quote comes out between double quotes, with its
/// body copied byte for byte: an escaped quote or backslash inside it never
/// ends it.
pub proof fn lemma_string_normalized(q: u8, body: Seq<u8>, rest: Seq<u8>)
    requires
        is_quote(q),
        escaped_body(body, q),
    ensures
        sanitized(seq![q] + body + seq![q] + rest) == after(quoted(body), rest),
{
    let s = seq![q] + body + seq![q] + rest;
    let m = body.len() as int;
    let n = m + 2;
    assert(s[0] == q);
    assert(s.subrange(1, 1 + m) =~= body);
    assert(s[1 + m] == q);
    lemma_escaped_body_end(s, 1, body, q);
    lemma_first_token(s, quoted(body), n);
    assert(s.subrange(n, s.len() as int) =~= rest);
}

/// A bare word that starts with a letter stays bare when it is `true`,
/// `false` or `null`, and is put between double quotes otherwise.
pub proof fn lemma_bare_word(w: Seq<u8>, rest: Seq<u8>)
    requires
        w.len() > 0,
        is_letter(w[0]),
        forall|k: int| 0 <= k < w.len() ==> is_word_byte(#[trigger] w[k]),
        rest.len() == 0 || !is_word_byte(rest[0]),
    ensures
        sanitized(w + rest) == after(if is_reserved(w) { w } else { quoted(w) }, rest),
{
    let s = w + rest;
    assert(s[0] == w[0]);
    lemma_word_end_at(s, 0, w.len() as int);
    assert(s.subrange(0, w.len() as int) =~= w);
    lemma_first_token(s, if is_reserved(w) { w } else { quoted(w) }, w.len() as int);
    assert(s.subrange(w.len() as int, s.len() as int) =~= rest);
}

proof fn lemma_word_end_at(s: Seq<u8>, i: int, e: int)
    requires
        0 <= i <= e <= s.len(),
        forall|k: int| i <= k < e ==> is_word_byte(#[trigger] s[k]),
        e == s.len() || !is_word_byte(s[e]),
    ensures
        word_end(s, i) == e,
    decreases e - i,
{
    if i < e {
        lemma_word_end_at(s, i + 1, e);
    }
}

/// Text that is already strict, minified JSON in form: every string is
/// double-quoted and closed, no blank stands outside a string, and every bare
/// word that starts with a letter is `true`, `false` or `null`.
pub open spec fn minified_from(s: Seq<u8>, i: int) -> bool
    decreases s.len() - i,
{
    if i < 0 || i >= s.len() {
        true
    } else {
        let b = s[i];
        if b == DQUOTE {
            match string_end(s, i + 1, DQUOTE) {
                Some(j) => {
                    proof {
                        lemma_string_end(s, i + 1, DQUOTE);
                    }
                    minified_from(s, j + 1)
                },
                None => false,
            }
        } else if b == SQUOTE || is_blank(b) {
            false
        } else if is_letter(b) || is_digit(b) {
            proof {
                lemma_word_end(s, i + 1);
            }
            (is_digit(b) || is_reserved(s.subrange(i, word_end(s, i)))) && minified_from(
                s,
                word_end(s, i),
            )
        } else {
            minified_from(s, i + 1)
        }
    }
}

/// Whole text in that form.
pub open spec fn minified(s: Seq<u8>) -> bool {
    minified_from(s, 0)
}

/// Sanitizing text that is already strict and minified gives it back unchanged,
/// so sanitizing such output again changes nothing.
pub proof fn lemma_minified_fixed_point(s: Seq<u8>)
    requires
        minified(s),
    ensures
        sanitized(s) == Some(s),
{
    lemma_minified_scan(s, 0);
    assert(s.subrange(0, s.len() as int) =~= s);
}

proof fn lemma_minified_scan(s: Seq<u8>, i: int)
    requires
        0 <= i <= s.len(),
        minified_from(s, i),
    ensures
        scan(s, i, false) == Some((s.subrange(i, s.len() as int), s.len() as int)),
    decreases s.len() - i,
{
    if i == s.len() {
        assert(s.subrange(i, i) =~= Seq::<u8>::empty());
    } else {
        let b = s[i];
        if b == DQUOTE {
            lemma_string_end(s, i + 1, DQUOTE);
            let c = string_end(s, i + 1, DQUOTE).unwrap();
            assert(quoted(s.subrange(i + 1, c)) =~= s.subrange(i, c + 1));
        } else if is_letter(b) || is_digit(b) {
            lemma_word_end(s, i);
        } else {
            assert(seq![b] =~= s.subrange(i, i + 1));
        }
        lemma_token_advances(s, i);
        let (piece, j) = token(s, i).unwrap();
        assert(piece == s.subrange(i, j));
        lemma_minified_scan(s, j);
        assert(piece + s.subrange(j, s.len() as int) =~= s.subrange(i, s.len() as int));
    }
}

/// ASCII input sanitizes to valid UTF-8: on such input sanitizing fails only
/// on a string left open.
pub proof fn lemma_ascii_output_is_utf8(s: Seq<u8>)
    requires
        forall|k: int| 0 <= k < s.len() ==> #[trigger] s[k] < 0x80u8,
    ensures
        sanitized(s) matches Some(out) ==> valid_utf8(out),
{
    lemma_ascii_from(s, 0);
    if sanitized(s) is Some {
        lemma_ascii_valid_utf8(sanitized(s).unwrap());
    }
}

proof fn lemma_ascii_from(s: Seq<u8>, i: int)
    requires
        0 <= i <= s.len(),
        forall|k: int| 0 <= k < s.len() ==> #[trigger] s[k] < 0x80u8,
    ensures
        scan(s, i, false) matches Some((out, _)) ==> forall|k: int|
            0 <= k < out.len() ==> #[trigger] out[k] < 0x80u8,
    decreases s.len() - i,
{
    if i < s.len() && token(s, i) is Some {
        let b = s[i];
        if is_letter(b) || is_digit(b) {
            lemma_word_end(s, i);
        } else if is_quote(b) {
            lemma_string_end(s, i + 1, b);
        }
        let (piece, j) = token(s, i).unwrap();
        assert forall|k: int| 0 <= k < piece.len() implies #[trigger] piece[k] < 0x80u8 by {
            if is_quote(b) {
                if 0 < k < piece.len() - 1 {
                    assert(piece[k] == s[i + k]);
                }
            } else if is_letter(b) || is_digit(b) {
                let w = s.subrange(i, word_end(s, i));
                if !is_digit(b) && !is_reserved(w) {
                    if 0 < k < piece.len() - 1 {
                        assert(piece[k] == s[i + k - 1]);
                    }
                } else {
                    assert(piece[k] == s[i + k]);
                }
            }
        }
        lemma_token_advances(s, i);
        lemma_ascii_from(s, j);
        if scan(s, j, false) is Some {
            let rest = scan(s, j, false).unwrap().0;
            assert forall|k: int| 0 <= k < (piece + rest).len() implies #[trigger] (piece
                + rest)[k] < 0x80u8 by {
                if k >= piece.len() {
                    assert((piece + rest)[k] == rest[k - piece.len()]);
                } else {
                    assert((piece + rest)[k] == piece[k]);
                }
            }
        }
    }
}

} // verus!
