use vstd::prelude::*;
use vstd::utf8::valid_utf8;
use crate::error::ParseError;

verus! {

/// `"`
pub const DQUOTE: u8 = 0x22;

/// `'`
pub const SQUOTE: u8 = 0x27;

/// `\`
pub const BACKSLASH: u8 = 0x5c;

/// `$`, the placeholder marker.
pub const DOLLAR: u8 = 0x24;

/// `_`
pub const UNDERSCORE: u8 = 0x5f;

/// `.`
pub const DOT: u8 = 0x2e;

/// A space.
pub const SPACE: u8 = 0x20;

/// Space, tab, carriage return and line feed: dropped outside strings.
pub open spec fn is_blank(b: u8) -> bool {
    b == SPACE || b == 0x09u8 || b == 0x0au8 || b == 0x0du8
}

/// A byte that opens a string.
pub open spec fn is_quote(b: u8) -> bool {
    b == DQUOTE || b == SQUOTE
}

/// An ASCII letter.
pub open spec fn is_letter(b: u8) -> bool {
    (0x41u8 <= b && b <= 0x5au8) || (0x61u8 <= b && b <= 0x7au8)
}

/// An ASCII digit.
pub open spec fn is_digit(b: u8) -> bool {
    0x30u8 <= b && b <= 0x39u8
}

/// A byte of a placeholder name: a letter or `_`.
pub open spec fn is_name_byte(b: u8) -> bool {
    is_letter(b) || b == UNDERSCORE
}

/// A byte of a bare word: a letter, a digit, `_` or `.`.
pub open spec fn is_word_byte(b: u8) -> bool {
    is_name_byte(b) || is_digit(b) || b == DOT
}

/// The end of the maximal run of word bytes that starts at `i`.
pub open spec fn word_end(s: Seq<u8>, i: int) -> int
    decreases s.len() - i,
{
    if 0 <= i < s.len() && is_word_byte(s[i]) {
        word_end(s, i + 1)
    } else {
        i
    }
}

/// The end of the maximal run of name bytes that starts at `i`.
pub open spec fn name_end(s: Seq<u8>, i: int) -> int
    decreases s.len() - i,
{
    if 0 <= i < s.len() && is_name_byte(s[i]) {
        name_end(s, i + 1)
    } else {
        i
    }
}

/// The end of the maximal run of spaces that starts at `i`.
pub open spec fn spaces_end(s: Seq<u8>, i: int) -> int
    decreases s.len() - i,
{
    if 0 <= i < s.len() && s[i] == SPACE {
        spaces_end(s, i + 1)
    } else {
        i
    }
}

/// The index of the quote `q` that closes a string whose body starts at `i`:
/// a backslash takes the byte after it into the body, whatever that byte is.
/// `None` when the input ends first.
pub open spec fn string_end(s: Seq<u8>, i: int, q: u8) -> Option<int>
    decreases s.len() - i,
{
    if i < 0 || i >= s.len() {
        None
    } else if s[i] == q {
        Some(i)
    } else if s[i] == BACKSLASH {
        if i + 1 >= s.len() {
            None
        } else {
            string_end(s, i + 2, q)
        }
    } else {
        string_end(s, i + 1, q)
    }
}

/// `w` between double quotes.
pub open spec fn quoted(w: Seq<u8>) -> Seq<u8> {
    seq![DQUOTE] + w + seq![DQUOTE]
}

/// The bare words that stay unquoted: `true`, `false` and `null`.
pub open spec fn is_reserved(w: Seq<u8>) -> bool {
    w == seq![0x74u8, 0x72u8, 0x75u8, 0x65u8] || w == seq![0x66u8, 0x61u8, 0x6cu8, 0x73u8, 0x65u8]
        || w == seq![0x6eu8, 0x75u8, 0x6cu8, 0x6cu8]
}

/// The token that starts at `i`: what it becomes in the output, and where the
/// next token starts. `None` for a string that is never closed.
pub open spec fn token(s: Seq<u8>, i: int) -> Option<(Seq<u8>, int)>
    recommends
        0 <= i < s.len(),
{
    let b = s[i];
    if is_quote(b) {
        match string_end(s, i + 1, b) {
            Some(j) => Some((quoted(s.subrange(i + 1, j)), j + 1)),
            None => None,
        }
    } else if is_letter(b) {
        let w = s.subrange(i, word_end(s, i));
        Some((if is_reserved(w) { w } else { quoted(w) }, word_end(s, i)))
    } else if is_digit(b) {
        Some((s.subrange(i, word_end(s, i)), word_end(s, i)))
    } else if is_blank(b) {
        Some((Seq::empty(), i + 1))
    } else {
        Some((seq![b], i + 1))
    }
}

pub proof fn lemma_word_end(s: Seq<u8>, i: int)
    requires
        0 <= i <= s.len(),
    ensures
        i <= word_end(s, i) <= s.len(),
        forall|k: int| i <= k < word_end(s, i) ==> is_word_byte(#[trigger] s[k]),
        word_end(s, i) < s.len() ==> !is_word_byte(s[word_end(s, i)]),
    decreases s.len() - i,
{
    if i < s.len() && is_word_byte(s[i]) {
        lemma_word_end(s, i + 1);
    }
}

pub proof fn lemma_name_end(s: Seq<u8>, i: int)
    requires
        0 <= i <= s.len(),
    ensures
        i <= name_end(s, i) <= s.len(),
        forall|k: int| i <= k < name_end(s, i) ==> is_name_byte(#[trigger] s[k]),
        name_end(s, i) < s.len() ==> !is_name_byte(s[name_end(s, i)]),
    decreases s.len() - i,
{
    if i < s.len() && is_name_byte(s[i]) {
        lemma_name_end(s, i + 1);
    }
}

pub proof fn lemma_spaces_end(s: Seq<u8>, i: int)
    requires
        0 <= i <= s.len(),
    ensures
        i <= spaces_end(s, i) <= s.len(),
        forall|k: int| i <= k < spaces_end(s, i) ==> #[trigger] s[k] == SPACE,
        spaces_end(s, i) < s.len() ==> s[spaces_end(s, i)] != SPACE,
    decreases s.len() - i,
{
    if i < s.len() && s[i] == SPACE {
        lemma_spaces_end(s, i + 1);
    }
}

pub proof fn lemma_string_end(s: Seq<u8>, i: int, q: u8)
    requires
        0 <= i,
        string_end(s, i, q) is Some,
    ensures
        i <= string_end(s, i, q).unwrap() < s.len(),
        s[string_end(s, i, q).unwrap()] == q,
    decreases s.len() - i,
{
    if s[i] != q {
        if s[i] == BACKSLASH {
            lemma_string_end(s, i + 2, q);
        } else {
            lemma_string_end(s, i + 1, q);
        }
    }
}

/// Each token moves the scan forward, and never past the end.
pub proof fn lemma_token_advances(s: Seq<u8>, i: int)
    requires
        0 <= i < s.len(),
        token(s, i) is Some,
    ensures
        i < token(s, i).unwrap().1 <= s.len(),
{
    let b = s[i];
    if is_quote(b) {
        lemma_string_end(s, i + 1, b);
    } else if is_letter(b) || is_digit(b) {
        lemma_word_end(s, i);
    }
}

/// The text produced from `i` on, and where the scan stopped: at the end of
/// the input or, when `stop` is set, at a placeholder marker. `None` when a
/// string is left open.
pub open spec fn scan(s: Seq<u8>, i: int, stop: bool) -> Option<(Seq<u8>, int)>
    decreases s.len() - i,
{
    if i < 0 || i >= s.len() {
        Some((Seq::empty(), i))
    } else if stop && s[i] == DOLLAR {
        Some((Seq::empty(), i))
    } else {
        match token(s, i) {
            None => None,
            Some((piece, j)) => {
                proof {
                    lemma_token_advances(s, i);
                }
                match scan(s, j, stop) {
                    None => None,
                    Some((rest, k)) => Some((piece + rest, k)),
                }
            },
        }
    }
}

/// The sanitized form of the whole input: strict, minified JSON text.
pub open spec fn sanitized(s: Seq<u8>) -> Option<Seq<u8>> {
    match scan(s, 0, false) {
        Some((out, _)) => Some(out),
        None => None,
    }
}

/// Where a scan may stop, and that it stops there only at the end or at a marker.
pub proof fn lemma_scan_stop(s: Seq<u8>, i: int, stop: bool)
    requires
        0 <= i <= s.len(),
        scan(s, i, stop) is Some,
    ensures
        i <= scan(s, i, stop).unwrap().1 <= s.len(),
        scan(s, i, stop).unwrap().1 < s.len() ==> stop && s[scan(s, i, stop).unwrap().1] == DOLLAR,
    decreases s.len() - i,
{
    if i < s.len() && !(stop && s[i] == DOLLAR) {
        lemma_token_advances(s, i);
        lemma_scan_stop(s, token(s, i).unwrap().1, stop);
    }
}

/// A fragment of the model: `(true, name)` for a placeholder, `(false, text)`
/// for a run of sanitized text.
pub type FragmentModel = (bool, Seq<u8>);

/// The fragments of the input from `i` on, in order. Fails with the first
/// problem met: a string left open, a run of text that is not UTF-8, or a
/// marker followed by no name.
pub open spec fn fragments_from(s: Seq<u8>, i: int) -> Result<Seq<FragmentModel>, ParseError>
    decreases s.len() - i,
{
    if i < 0 || i >= s.len() {
        Ok(Seq::empty())
    } else {
        match scan(s, i, true) {
            None => Err(ParseError::UnterminatedString),
            Some((lit, j)) => {
                let head: Seq<FragmentModel> = if lit.len() > 0 {
                    seq![(false, lit)]
                } else {
                    Seq::empty()
                };
                if !valid_utf8(lit) {
                    Err(ParseError::InvalidUtf8)
                } else if j >= s.len() {
                    Ok(head)
                } else {
                    let k = spaces_end(s, j + 1);
                    let e = name_end(s, k);
                    if e <= k {
                        Err(ParseError::MissingPlaceholderName)
                    } else {
                        proof {
                            lemma_scan_stop(s, i, true);
                            lemma_spaces_end(s, j + 1);
                            lemma_name_end(s, k);
                        }
                        match fragments_from(s, e) {
                            Err(err) => Err(err),
                            Ok(rest) => Ok(head + seq![(true, s.subrange(k, e))] + rest),
                        }
                    }
                }
            },
        }
    }
}

/// The fragments of the whole input.
pub open spec fn fragments(s: Seq<u8>) -> Result<Seq<FragmentModel>, ParseError> {
    fragments_from(s, 0)
}

/// The value that a replacement table gives `name`: that of its first entry
/// with that name.
pub open spec fn lookup(table: Seq<(Seq<char>, Seq<char>)>, name: Seq<char>) -> Option<Seq<char>>
    decreases table.len(),
{
    if table.len() == 0 {
        None
    } else if table[0].0 == name {
        Some(table[0].1)
    } else {
        lookup(table.drop_first(), name)
    }
}

/// The text that fragments make with their placeholders filled in from
/// `table`, or the name of the first placeholder that `table` lacks.
pub open spec fn assembled(
    frags: Seq<(bool, Seq<char>)>,
    table: Seq<(Seq<char>, Seq<char>)>,
) -> Result<Seq<char>, Seq<char>>
    decreases frags.len(),
{
    if frags.len() == 0 {
        Ok(Seq::empty())
    } else {
        match assembled(frags.drop_last(), table) {
            Err(name) => Err(name),
            Ok(prefix) => {
                let f = frags.last();
                if !f.0 {
                    Ok(prefix + f.1)
                } else {
                    match lookup(table, f.1) {
                        Some(v) => Ok(prefix + v),
                        None => Err(f.1),
                    }
                }
            },
        }
    }
}

/// Once a prefix of the fragments fails to assemble, so do all longer ones,
/// with the same missing name.
pub proof fn lemma_assembled_fails_after(
    frags: Seq<(bool, Seq<char>)>,
    table: Seq<(Seq<char>, Seq<char>)>,
    k: int,
)
    requires
        0 <= k <= frags.len(),
        assembled(frags.subrange(0, k), table) is Err,
    ensures
        assembled(frags, table) == assembled(frags.subrange(0, k), table),
    decreases frags.len() - k,
{
    if k < frags.len() {
        let next = frags.subrange(0, k + 1);
        assert(next.drop_last() =~= frags.subrange(0, k));
        lemma_assembled_fails_after(frags, table, k + 1);
    } else {
        assert(frags.subrange(0, k) =~= frags);
    }
}

} // verus!
