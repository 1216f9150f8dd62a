use vstd::prelude::*;
use vstd::string::StringExecFns;
use vstd::utf8::{decode_utf8, pop_first_scalar, valid_utf8};
use crate::error::{MissingReplacement, ParseError};
use crate::scan::{
    assembled, fragments_from, is_blank, is_digit, is_letter, is_name_byte, is_quote, is_reserved,
    is_word_byte, lookup, name_end, sanitized, scan, spaces_end, string_end, word_end,
    FragmentModel, BACKSLASH, DOLLAR, DOT, DQUOTE, SPACE, SQUOTE, UNDERSCORE,
};

verus! {

/// Whether `b` is dropped outside strings.
fn is_blank_byte(b: u8) -> (r: bool)
    ensures
        r == is_blank(b),
{
    b == SPACE || b == 0x09u8 || b == 0x0au8 || b == 0x0du8
}

/// Whether `b` is an ASCII letter.
fn is_letter_byte(b: u8) -> (r: bool)
    ensures
        r == is_letter(b),
{
    (0x41u8 <= b && b <= 0x5au8) || (0x61u8 <= b && b <= 0x7au8)
}

/// Whether `b` is an ASCII digit.
fn is_digit_byte(b: u8) -> (r: bool)
    ensures
        r == is_digit(b),
{
    0x30u8 <= b && b <= 0x39u8
}

/// Whether `b` may stand in a placeholder name.
fn is_ident(b: u8) -> (r: bool)
    ensures
        r == is_name_byte(b),
{
    is_letter_byte(b) || b == UNDERSCORE
}

/// Whether `b` may stand in a bare word.
fn is_word(b: u8) -> (r: bool)
    ensures
        r == is_word_byte(b),
{
    is_ident(b) || is_digit_byte(b) || b == DOT
}

/// Skips the spaces that follow a placeholder marker.
fn shift_while(s: &[u8], i: usize) -> (r: usize)
    requires
        i <= s@.len(),
    ensures
        r == spaces_end(s@, i as int),
{
    let mut k: usize = i;
    while k < s.len() && s[k] == SPACE
        invariant
            i <= k <= s@.len(),
            spaces_end(s@, k as int) == spaces_end(s@, i as int),
        decreases s@.len() - k,
    {
        k = k + 1;
    }
    k
}

/// The end of the placeholder name that starts at `i`.
fn repl(s: &[u8], i: usize) -> (r: usize)
    requires
        i <= s@.len(),
    ensures
        r == name_end(s@, i as int),
{
    let mut k: usize = i;
    while k < s.len() && is_ident(s[k])
        invariant
            i <= k <= s@.len(),
            name_end(s@, k as int) == name_end(s@, i as int),
        decreases s@.len() - k,
    {
        k = k + 1;
    }
    k
}

/// The end of the bare word that starts at `i`.
fn take_while(s: &[u8], i: usize) -> (r: usize)
    requires
        i <= s@.len(),
    ensures
        r == word_end(s@, i as int),
{
    let mut k: usize = i;
    while k < s.len() && is_word(s[k])
        invariant
            i <= k <= s@.len(),
            word_end(s@, k as int) == word_end(s@, i as int),
        decreases s@.len() - k,
    {
        k = k + 1;
    }
    k
}

/// The index of the quote `q` that closes the string whose body starts at `i`.
fn take_string(s: &[u8], i: usize, q: u8) -> (r: Option<usize>)
    requires
        i <= s@.len(),
        is_quote(q),
    ensures
        r matches Some(j) ==> string_end(s@, i as int, q) == Some(j as int),
        r is None ==> string_end(s@, i as int, q) is None,
{
    let mut k: usize = i;
    let mut escaped: bool = false;
    while k < s.len()
        invariant
            i <= k <= s@.len(),
            is_quote(q),
            !escaped ==> string_end(s@, k as int, q) == string_end(s@, i as int, q),
            escaped ==> k >= i + 1 && s@[k - 1] == BACKSLASH && string_end(s@, k - 1, q)
                == string_end(s@, i as int, q),
        decreases s@.len() - k,
    {
        let c = s[k];
        if escaped {
            assert(string_end(s@, k - 1, q) == string_end(s@, k + 1, q));
            escaped = false;
        } else if c == q {
            return Some(k);
        } else if c == BACKSLASH {
            escaped = true;
        }
        k = k + 1;
    }
    None
}

/// Appends the bytes `s[a..b]` to `out`.
fn push_range(out: &mut Vec<u8>, s: &[u8], a: usize, b: usize)
    requires
        a <= b <= s@.len(),
    ensures
        final(out)@ == old(out)@ + s@.subrange(a as int, b as int),
{
    let mut k: usize = a;
    while k < b
        invariant
            a <= k <= b <= s@.len(),
            out@ == old(out)@ + s@.subrange(a as int, k as int),
        decreases b - k,
    {
        out.push(s[k]);
        k = k + 1;
        assert(out@ =~= old(out)@ + s@.subrange(a as int, k as int));
    }
}

/// Whether `s[i..j]` is `true`, `false` or `null`.
fn is_reserved_word(s: &[u8], i: usize, j: usize) -> (r: bool)
    requires
        i <= j <= s@.len(),
    ensures
        r == is_reserved(s@.subrange(i as int, j as int)),
{
    let w = Ghost(s@.subrange(i as int, j as int));
    let n = j - i;
    if n == 4 && s[i] == 0x74u8 && s[i + 1] == 0x72u8 && s[i + 2] == 0x75u8 && s[i + 3] == 0x65u8 {
        assert(w@ =~= seq![0x74u8, 0x72u8, 0x75u8, 0x65u8]);
        true
    } else if n == 5 && s[i] == 0x66u8 && s[i + 1] == 0x61u8 && s[i + 2] == 0x6cu8 && s[i + 3]
        == 0x73u8 && s[i + 4] == 0x65u8 {
        assert(w@ =~= seq![0x66u8, 0x61u8, 0x6cu8, 0x73u8, 0x65u8]);
        true
    } else if n == 4 && s[i] == 0x6eu8 && s[i + 1] == 0x75u8 && s[i + 2] == 0x6cu8 && s[i + 3]
        == 0x6cu8 {
        assert(w@ =~= seq![0x6eu8, 0x75u8, 0x6cu8, 0x6cu8]);
        true
    } else {
        assert(w@.len() == n);
        assert(forall|k: int| 0 <= k < n ==> w@[k] == s@[i + k]);
        false
    }
}

/// `text` put in front of what the rest of a scan produces.
pub open spec fn prepend(text: Seq<u8>, rest: Option<(Seq<u8>, int)>) -> Option<(Seq<u8>, int)> {
    match rest {
        Some((t, k)) => Some((text + t, k)),
        None => None,
    }
}

/// Sanitizes the input from `start` on, appending to `out`; with
/// `break_on_repl`, stops at the first placeholder marker. Returns where the
/// scan stopped.
fn literal(s: &[u8], start: usize, out: &mut Vec<u8>, break_on_repl: bool) -> (r: Result<
    usize,
    ParseError,
>)
    requires
        start <= s@.len(),
    ensures
        match scan(s@, start as int, break_on_repl) {
            Some((text, k)) => r == Ok::<usize, ParseError>(k as usize) && final(out)@ == old(
                out,
            )@ + text,
            None => r == Err::<usize, ParseError>(ParseError::UnterminatedString),
        },
{
    let ghost before = out@;
    let ghost mut done: Seq<u8> = Seq::empty();
    let mut i: usize = start;
    loop
        invariant
            start <= i <= s@.len(),
            out@ == before + done,
            before == old(out)@,
            scan(s@, start as int, break_on_repl) == prepend(done, scan(s@, i as int, break_on_repl)),
        decreases s@.len() - i,
    {
        if i >= s.len() {
            assert(done + Seq::<u8>::empty() =~= done);
            return Ok(i);
        }
        let c = s[i];
        if break_on_repl && c == DOLLAR {
            assert(done + Seq::<u8>::empty() =~= done);
            return Ok(i);
        }
        let ghost mid = out@;
        let ghost t = crate::scan::token(s@, i as int);
        if c == DQUOTE || c == SQUOTE {
            match take_string(s, i + 1, c) {
                None => {
                    return Err(ParseError::UnterminatedString);
                },
                Some(j) => {
                    proof {
                        crate::scan::lemma_string_end(s@, i + 1, c);
                    }
                    out.push(DQUOTE);
                    push_range(out, s, i + 1, j);
                    out.push(DQUOTE);
                    i = j + 1;
                },
            }
        } else if is_letter_byte(c) {
            let j = take_while(s, i);
            proof {
                crate::scan::lemma_word_end(s@, i as int);
            }
            if is_reserved_word(s, i, j) {
                push_range(out, s, i, j);
            } else {
                out.push(DQUOTE);
                push_range(out, s, i, j);
                out.push(DQUOTE);
            }
            i = j;
        } else if is_digit_byte(c) {
            let j = take_while(s, i);
            proof {
                crate::scan::lemma_word_end(s@, i as int);
            }
            push_range(out, s, i, j);
            i = j;
        } else if is_blank_byte(c) {
            i = i + 1;
        } else {
            out.push(c);
            i = i + 1;
        }
        proof {
            let piece = t.unwrap().0;
            assert(out@ =~= mid + piece);
            match scan(s@, i as int, break_on_repl) {
                Some((tail, _)) => {
                    assert(done + (piece + tail) =~= (done + piece) + tail);
                },
                None => {},
            }
            done = done + piece;
        }
    }
}

/// A piece of a template: sanitized text, or the name of a value to put in.
#[derive(Debug)]
pub enum JsonFragment<'a> {
    /// Sanitized JSON text, used as it stands.
    Literal(String),
    /// The name of a placeholder, borrowed from the input.
    Repl(&'a str),
}

impl<'a> View for JsonFragment<'a> {
    /// Whether the fragment is a placeholder, and its text or name.
    type V = (bool, Seq<char>);

    open spec fn view(&self) -> (bool, Seq<char>) {
        match self {
            JsonFragment::Literal(t) => (false, t@),
            JsonFragment::Repl(n) => (true, n@),
        }
    }
}

/// A fragment of the model as the library hands it out: its bytes decoded.
pub open spec fn decoded(f: FragmentModel) -> (bool, Seq<char>) {
    (f.0, decode_utf8(f.1))
}

/// Relies on `String::from_utf8`: it succeeds exactly when the bytes are valid
/// UTF-8, and the string then holds the characters that they encode.
#[verifier::external_body]
fn string_from_utf8(bytes: Vec<u8>) -> (r: Option<String>)
    ensures
        r is Some <==> valid_utf8(bytes@),
        r matches Some(t) ==> t@ == decode_utf8(bytes@),
{
    String::from_utf8(bytes).ok()
}

/// Relies on `std::str::from_utf8`: it succeeds exactly when the bytes are
/// valid UTF-8, and the slice then holds the characters that they encode.
#[verifier::external_body]
fn str_from_utf8(bytes: &[u8]) -> (r: Option<&str>)
    ensures
        r is Some <==> valid_utf8(bytes@),
        r matches Some(t) ==> t@ == decode_utf8(bytes@),
{
    std::str::from_utf8(bytes).ok()
}

/// Sanitizes `remainder` and appends the result to `json`. On failure `json`
/// is left as it was.
pub fn parse_literal(remainder: &[u8], json: &mut String) -> (r: Result<(), ParseError>)
    ensures
        match sanitized(remainder@) {
            None => r == Err::<(), ParseError>(ParseError::UnterminatedString) && final(json)@
                == old(json)@,
            Some(text) => if valid_utf8(text) {
                r == Ok::<(), ParseError>(()) && final(json)@ == old(json)@ + decode_utf8(text)
            } else {
                r == Err::<(), ParseError>(ParseError::InvalidUtf8) && final(json)@ == old(json)@
            },
        },
{
    let mut out: Vec<u8> = Vec::new();
    match literal(remainder, 0, &mut out, false) {
        Err(e) => Err(e),
        Ok(_) => {
            assert(out@ =~= sanitized(remainder@).unwrap());
            match string_from_utf8(out) {
                None => Err(ParseError::InvalidUtf8),
                Some(t) => {
                    json.append(t.as_str());
                    Ok(())
                },
            }
        },
    }
}

/// Bytes below 0x80 always form valid UTF-8.
pub proof fn lemma_ascii_valid_utf8(b: Seq<u8>)
    requires
        forall|k: int| 0 <= k < b.len() ==> #[trigger] b[k] < 0x80u8,
    ensures
        valid_utf8(b),
    decreases b.len(),
{
    if b.len() > 0 {
        let c = b[0];
        assert((c & 0x7fu8) as u32 <= 0x7fu32) by (bit_vector);
        let rest = b.subrange(1, b.len() as int);
        assert(pop_first_scalar(b) =~= rest);
        lemma_ascii_valid_utf8(rest);
    }
}

/// The views of a sequence of fragments.
pub open spec fn views<'a>(v: Seq<JsonFragment<'a>>) -> Seq<(bool, Seq<char>)> {
    v.map_values(|f: JsonFragment<'a>| f@)
}

/// The fragments of the model, decoded.
pub open spec fn decoded_all(fs: Seq<FragmentModel>) -> Seq<(bool, Seq<char>)> {
    fs.map_values(|f: FragmentModel| decoded(f))
}

/// The sanitized form of `input` as a new string.
pub fn sanitize(input: &[u8]) -> (r: Result<String, ParseError>)
    ensures
        match sanitized(input@) {
            None => r == Err::<String, ParseError>(ParseError::UnterminatedString),
            Some(text) => if valid_utf8(text) {
                r matches Ok(s) && s@ == decode_utf8(text)
            } else {
                r == Err::<String, ParseError>(ParseError::InvalidUtf8)
            },
        },
{
    let mut json = String::new();
    match parse_literal(input, &mut json) {
        Ok(()) => {
            assert(json@ =~= decode_utf8(sanitized(input@).unwrap()));
            Ok(json)
        },
        Err(e) => Err(e),
    }
}

/// Splits `remainder` into literal runs and placeholders and appends them to
/// `fragments`, in order. On failure `fragments` is left as it was.
pub fn parse_fragments<'a>(remainder: &'a [u8], fragments: &mut Vec<JsonFragment<'a>>) -> (r:
    Result<(), ParseError>)
    ensures
        match crate::scan::fragments(remainder@) {
            Ok(fs) => r == Ok::<(), ParseError>(()) && views(final(fragments)@) == views(
                old(fragments)@,
            ) + decoded_all(fs),
            Err(e) => r == Err::<(), ParseError>(e) && final(fragments)@ == old(fragments)@,
        },
{
    let ghost s = remainder@;
    let mut local: Vec<JsonFragment<'a>> = Vec::new();
    let ghost mut done: Seq<FragmentModel> = Seq::empty();
    let mut i: usize = 0;
    while i < remainder.len()
        invariant
            i <= s.len(),
            s == remainder@,
            views(local@) == decoded_all(done),
            match fragments_from(s, i as int) {
                Ok(rest) => crate::scan::fragments(s) == Ok::<Seq<FragmentModel>, ParseError>(
                    done + rest,
                ),
                Err(e) => crate::scan::fragments(s) == Err::<Seq<FragmentModel>, ParseError>(e),
            },
        decreases s.len() - i,
    {
        let ghost i0 = i as int;
        let mut out: Vec<u8> = Vec::new();
        let j = match literal(remainder, i, &mut out, true) {
            Err(e) => {
                return Err(e);
            },
            Ok(j) => j,
        };
        proof {
            crate::scan::lemma_scan_stop(s, i0, true);
        }
        let ghost lit = out@;
        let nonempty = out.len() > 0;
        let ghost head: Seq<FragmentModel> = if lit.len() > 0 {
            seq![(false, lit)]
        } else {
            Seq::empty()
        };
        let ghost before = local@;
        match string_from_utf8(out) {
            None => {
                return Err(ParseError::InvalidUtf8);
            },
            Some(text) => {
                if nonempty {
                    local.push(JsonFragment::Literal(text));
                    assert(local@.last()@ == decoded((false, lit)));
                }
            },
        }
        proof {
            let a = views(local@);
            let b = decoded_all(done + head);
            assert(views(before).len() == before.len());
            assert(decoded_all(done).len() == done.len());
            assert(nonempty == (lit.len() > 0));
            assert(a.len() == b.len());
            assert forall|m: int| 0 <= m < a.len() implies a[m] == b[m] by {
                if m < before.len() {
                    assert(local@[m] == before[m]);
                    assert(views(before)[m] == decoded_all(done)[m]);
                }
            }
            assert(a =~= b);
        }
        if j >= remainder.len() {
            proof {
                assert(done + head + Seq::<FragmentModel>::empty() =~= done + head);
                done = done + head;
            }
            i = j;
        } else {
            let k = shift_while(remainder, j + 1);
            proof {
                crate::scan::lemma_spaces_end(s, j + 1);
            }
            let e = repl(remainder, k);
            proof {
                crate::scan::lemma_name_end(s, k as int);
            }
            if e <= k {
                return Err(ParseError::MissingPlaceholderName);
            }
            let bytes = &remainder[k..e];
            proof {
                assert(forall|m: int| 0 <= m < bytes@.len() ==> #[trigger] bytes@[m] == s[k + m]);
                lemma_ascii_valid_utf8(bytes@);
            }
            let name = str_from_utf8(bytes).unwrap();
            let ghost before2 = local@;
            local.push(JsonFragment::Repl(name));
            let ghost item: Seq<FragmentModel> = seq![(true, s.subrange(k as int, e as int))];
            proof {
                let a = views(local@);
                let b = decoded_all(done + head + item);
                assert(a.len() == b.len());
                assert forall|m: int| 0 <= m < a.len() implies a[m] == b[m] by {
                    if m < before2.len() {
                        assert(local@[m] == before2[m]);
                        assert(views(before2)[m] == decoded_all(done + head)[m]);
                    } else {
                        assert(bytes@ =~= s.subrange(k as int, e as int));
                    }
                }
                assert(a =~= b);
            }
            proof {
                match fragments_from(s, e as int) {
                    Ok(rest) => {
                        assert(done + (head + item + rest) =~= done + head + item + rest);
                    },
                    Err(_) => {},
                }
                done = done + head + item;
            }
            i = e;
        }
    }
    proof {
        assert(done + Seq::<FragmentModel>::empty() =~= done);
    }
    fragments.append(&mut local);
    assert(views(fragments@) =~= views(old(fragments)@) + decoded_all(done));
    Ok(())
}

/// The views of a replacement table's entries.
pub open spec fn table_view<'a>(v: Seq<(&'static str, &'a str)>) -> Seq<(Seq<char>, Seq<char>)> {
    v.map_values(|e: (&'static str, &'a str)| (e.0@, e.1@))
}

/// Fragments of a template, with the values for its placeholders.
#[derive(Debug)]
pub struct JsonFragments<'a> {
    /// Placeholder names and their values; the first entry for a name counts.
    pub repls: Vec<(&'static str, &'a str)>,
    /// The fragments, in order.
    pub fragments: Vec<JsonFragment<'a>>,
}

/// The value that `repls` gives `name`.
fn find<'a>(repls: &Vec<(&'static str, &'a str)>, name: &str) -> (r: Option<&'a str>)
    ensures
        match lookup(table_view(repls@), name@) {
            Some(v) => r matches Some(x) && x@ == v,
            None => r is None,
        },
{
    let ghost table = table_view(repls@);
    let wanted = name.to_owned();
    let mut k: usize = 0;
    assert(table.subrange(0, table.len() as int) =~= table);
    while k < repls.len()
        invariant
            k <= repls@.len(),
            table == table_view(repls@),
            wanted@ == name@,
            lookup(table, name@) == lookup(table.subrange(k as int, table.len() as int), name@),
        decreases repls@.len() - k,
    {
        let ghost rest = table.subrange(k as int, table.len() as int);
        assert(rest.drop_first() =~= table.subrange(k + 1, table.len() as int));
        let key = repls[k].0.to_owned();
        if key == wanted {
            return Some(repls[k].1);
        }
        k = k + 1;
    }
    None
}

impl<'a> JsonFragments<'a> {
    /// Fragments with an empty replacement table.
    pub fn new(fragments: Vec<JsonFragment<'a>>) -> (r: Self)
        ensures
            r.fragments@ == fragments@,
            r.repls@.len() == 0,
    {
        JsonFragments { repls: Vec::new(), fragments }
    }

    /// Gives the placeholder `name` the value `value`, in place of any it had.
    pub fn insert(&mut self, name: &'static str, value: &'a str)
        ensures
            final(self).fragments@ == old(self).fragments@,
            lookup(table_view(final(self).repls@), name@) == Some(value@),
            forall|n: Seq<char>|
                n != name@ ==> lookup(table_view(final(self).repls@), n) == lookup(
                    table_view(old(self).repls@),
                    n,
                ),
    {
        self.repls.insert(0, (name, value));
        assert(table_view(self.repls@).drop_first() =~= table_view(old(self).repls@));
    }

    /// The fragments joined in order, each placeholder replaced by its value;
    /// fails on the first placeholder that has none.
    pub fn to_string(&self) -> (r: Result<String, MissingReplacement>)
        ensures
            match assembled(views(self.fragments@), table_view(self.repls@)) {
                Ok(text) => r matches Ok(s) && s@ == text,
                Err(name) => r matches Err(e) && e.name@ == name,
            },
    {
        let ghost frags = views(self.fragments@);
        let ghost table = table_view(self.repls@);
        let mut result = String::new();
        let mut k: usize = 0;
        while k < self.fragments.len()
            invariant
                k <= self.fragments@.len(),
                frags == views(self.fragments@),
                table == table_view(self.repls@),
                assembled(frags.subrange(0, k as int), table) == Ok::<Seq<char>, Seq<char>>(
                    result@,
                ),
            decreases self.fragments@.len() - k,
        {
            let ghost next = frags.subrange(0, k + 1);
            assert(next.drop_last() =~= frags.subrange(0, k as int));
            assert(next.last() == self.fragments@[k as int]@);
            match &self.fragments[k] {
                JsonFragment::Literal(l) => {
                    result.append(l.as_str());
                },
                JsonFragment::Repl(n) => {
                    match find(&self.repls, *n) {
                        Some(v) => {
                            result.append(v);
                        },
                        None => {
                            proof {
                                crate::scan::lemma_assembled_fails_after(frags, table, k as int + 1);
                            }
                            assert(frags.subrange(0, frags.len() as int) =~= frags);
                            return Err(MissingReplacement { name: (*n).to_owned() });
                        },
                    }
                },
            }
            k = k + 1;
        }
        assert(frags.subrange(0, frags.len() as int) =~= frags);
        Ok(result)
    }
}

} // verus!
