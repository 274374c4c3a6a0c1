//! The stored text encoding of the content payload: a canonical JSON
//! object with the three payload fields in fixed order, string values
//! escaped. The decoder is strict: it accepts exactly the canonical
//! encoding, and what it accepts it re-encodes to the very same text.

use vstd::prelude::*;

use crate::content::BlockContent;
use crate::errors::BlockError;
use crate::text::chars_of;
use crate::text::push_char;
use crate::text::str_eq;
use crate::text::string_of;

verus! {

/// The high hex digit of a control character's code.
pub open spec fn hex_digit(n: int) -> char {
    if n == 0 {
        '0'
    } else if n == 1 {
        '1'
    } else if n == 2 {
        '2'
    } else if n == 3 {
        '3'
    } else if n == 4 {
        '4'
    } else if n == 5 {
        '5'
    } else if n == 6 {
        '6'
    } else if n == 7 {
        '7'
    } else if n == 8 {
        '8'
    } else if n == 9 {
        '9'
    } else if n == 10 {
        'a'
    } else if n == 11 {
        'b'
    } else if n == 12 {
        'c'
    } else if n == 13 {
        'd'
    } else if n == 14 {
        'e'
    } else {
        'f'
    }
}

/// The escaped form of one character inside a JSON string.
pub open spec fn esc_char(c: char) -> Seq<char> {
    if c == '"' {
        seq!['\\', '"']
    } else if c == '\\' {
        seq!['\\', '\\']
    } else if c == '\n' {
        seq!['\\', 'n']
    } else if c == '\r' {
        seq!['\\', 'r']
    } else if c == '\t' {
        seq!['\\', 't']
    } else if (c as u32) < 0x20 {
        seq!['\\', 'u', '0', '0', hex_digit((c as u32) as int / 16), hex_digit((c as u32) as int % 16)]
    } else {
        seq![c]
    }
}

/// The escaped form of a whole text.
pub open spec fn esc(s: Seq<char>) -> Seq<char>
    decreases s.len(),
{
    if s.len() == 0 {
        Seq::empty()
    } else {
        esc(s.drop_last()) + esc_char(s.last())
    }
}

/// A JSON string literal: the escaped text between double quotes.
pub open spec fn quoted(s: Seq<char>) -> Seq<char> {
    seq!['"'] + esc(s) + seq!['"']
}

/// An optional text as a JSON value: a string literal, or `null`.
pub open spec fn opt_json(o: Option<Seq<char>>) -> Seq<char> {
    match o {
        Some(s) => quoted(s),
        None => "null"@,
    }
}

/// The canonical stored encoding of a content payload.
pub open spec fn content_json(ct: Seq<char>, co: Option<Seq<char>>, ti: Option<Seq<char>>) -> Seq<
    char,
> {
    "{\"content_type\":"@ + quoted(ct) + ",\"contents\":"@ + opt_json(co) + ",\"title\":"@
        + opt_json(ti) + "}"@
}

/// The escaped form of one character as the original application's
/// encoder wrote it: the same as `esc_char`, except that backspace and
/// form feed use their two-character short escapes.
pub open spec fn esc_char_compat(c: char) -> Seq<char> {
    if (c as u32) == 0x08 {
        seq!['\\', 'b']
    } else if (c as u32) == 0x0c {
        seq!['\\', 'f']
    } else {
        esc_char(c)
    }
}

/// The compat escaped form of a whole text.
pub open spec fn esc_compat(s: Seq<char>) -> Seq<char>
    decreases s.len(),
{
    if s.len() == 0 {
        Seq::empty()
    } else {
        esc_compat(s.drop_last()) + esc_char_compat(s.last())
    }
}

/// A compat JSON string literal.
pub open spec fn quoted_compat(s: Seq<char>) -> Seq<char> {
    seq!['"'] + esc_compat(s) + seq!['"']
}

/// An optional text as a compat JSON value.
pub open spec fn opt_json_compat(o: Option<Seq<char>>) -> Seq<char> {
    match o {
        Some(s) => quoted_compat(s),
        None => "null"@,
    }
}

/// The stored encoding of a content payload as the original application
/// wrote it, with `\b` and `\f` short escapes.
pub open spec fn content_json_compat(
    ct: Seq<char>,
    co: Option<Seq<char>>,
    ti: Option<Seq<char>>,
) -> Seq<char> {
    "{\"content_type\":"@ + quoted_compat(ct) + ",\"contents\":"@ + opt_json_compat(co)
        + ",\"title\":"@ + opt_json_compat(ti) + "}"@
}

/// The hex digit character for a nibble.
fn hex_digit_char(n: u32) -> (c: char)
    requires
        n < 16,
    ensures
        c == hex_digit(n as int),
{
    if n == 0 {
        '0'
    } else if n == 1 {
        '1'
    } else if n == 2 {
        '2'
    } else if n == 3 {
        '3'
    } else if n == 4 {
        '4'
    } else if n == 5 {
        '5'
    } else if n == 6 {
        '6'
    } else if n == 7 {
        '7'
    } else if n == 8 {
        '8'
    } else if n == 9 {
        '9'
    } else if n == 10 {
        'a'
    } else if n == 11 {
        'b'
    } else if n == 12 {
        'c'
    } else if n == 13 {
        'd'
    } else if n == 14 {
        'e'
    } else {
        'f'
    }
}

/// Append the escaped form of `s` between double quotes.
fn push_quoted(out: &mut String, s: &str)
    ensures
        final(out)@ == old(out)@ + quoted(s@),
{
    push_char(out, '"');
    let v = chars_of(s);
    let ghost base = out@;
    let mut i: usize = 0;
    while i < v.len()
        invariant
            v@ == s@,
            i <= v.len(),
            out@ == base + esc(s@.take(i as int)),
        decreases v.len() - i,
    {
        let c = v[i];
        let code = c as u32;
        if c == '"' {
            push_char(out, '\\');
            push_char(out, '"');
        } else if c == '\\' {
            push_char(out, '\\');
            push_char(out, '\\');
        } else if c == '\n' {
            push_char(out, '\\');
            push_char(out, 'n');
        } else if c == '\r' {
            push_char(out, '\\');
            push_char(out, 'r');
        } else if c == '\t' {
            push_char(out, '\\');
            push_char(out, 't');
        } else if code < 0x20 {
            push_char(out, '\\');
            push_char(out, 'u');
            push_char(out, '0');
            push_char(out, '0');
            push_char(out, hex_digit_char(code / 16));
            push_char(out, hex_digit_char(code % 16));
        } else {
            push_char(out, c);
        }
        proof {
            assert(s@.take(i + 1).drop_last() =~= s@.take(i as int));
            assert(s@.take(i + 1).last() == s@[i as int]);
            assert(esc(s@.take(i + 1)) == esc(s@.take(i as int)) + esc_char(s@[i as int]));
            assert(out@ =~= base + esc(s@.take(i + 1)));
        }
        i = i + 1;
    }
    proof {
        assert(s@.take(v.len() as int) =~= s@);
    }
    push_char(out, '"');
    proof {
        assert(out@ =~= old(out)@ + quoted(s@));
    }
}

/// Append the compat escaped form of `s` between double quotes.
fn push_quoted_compat(out: &mut String, s: &str)
    ensures
        final(out)@ == old(out)@ + quoted_compat(s@),
{
    push_char(out, '"');
    let v = chars_of(s);
    let ghost base = out@;
    let mut i: usize = 0;
    while i < v.len()
        invariant
            v@ == s@,
            i <= v.len(),
            out@ == base + esc_compat(s@.take(i as int)),
        decreases v.len() - i,
    {
        let c = v[i];
        let code = c as u32;
        if c == '"' {
            push_char(out, '\\');
            push_char(out, '"');
        } else if c == '\\' {
            push_char(out, '\\');
            push_char(out, '\\');
        } else if c == '\n' {
            push_char(out, '\\');
            push_char(out, 'n');
        } else if c == '\r' {
            push_char(out, '\\');
            push_char(out, 'r');
        } else if c == '\t' {
            push_char(out, '\\');
            push_char(out, 't');
        } else if code == 0x08 {
            push_char(out, '\\');
            push_char(out, 'b');
        } else if code == 0x0c {
            push_char(out, '\\');
            push_char(out, 'f');
        } else if code < 0x20 {
            push_char(out, '\\');
            push_char(out, 'u');
            push_char(out, '0');
            push_char(out, '0');
            push_char(out, hex_digit_char(code / 16));
            push_char(out, hex_digit_char(code % 16));
        } else {
            push_char(out, c);
        }
        proof {
            assert(s@.take(i + 1).drop_last() =~= s@.take(i as int));
            assert(s@.take(i + 1).last() == s@[i as int]);
            assert(esc_compat(s@.take(i + 1)) == esc_compat(s@.take(i as int)) + esc_char_compat(s@[i as int]));
            assert(out@ =~= base + esc_compat(s@.take(i + 1)));
        }
        i = i + 1;
    }
    proof {
        assert(s@.take(v.len() as int) =~= s@);
    }
    push_char(out, '"');
    proof {
        assert(out@ =~= old(out)@ + quoted_compat(s@));
    }
}

impl BlockContent {
    /// The canonical stored encoding of this payload.
    pub fn to_json(&self) -> (r: String)
        ensures
            r@ == content_json(
                self.content_type@,
                crate::block::opt_view(self.contents),
                crate::block::opt_view(self.title),
            ),
    {
        let mut out = String::new();
        out.append("{\"content_type\":");
        push_quoted(&mut out, self.content_type.as_str());
        out.append(",\"contents\":");
        match &self.contents {
            Some(s) => push_quoted(&mut out, s.as_str()),
            None => out.append("null"),
        }
        out.append(",\"title\":");
        match &self.title {
            Some(s) => push_quoted(&mut out, s.as_str()),
            None => out.append("null"),
        }
        out.append("}");
        proof {
            assert(out@ =~= content_json(
                self.content_type@,
                crate::block::opt_view(self.contents),
                crate::block::opt_view(self.title),
            ));
        }
        out
    }

    /// The stored encoding of this payload as the original application
    /// wrote it, with the `\b` and `\f` short escapes.
    fn to_json_compat(&self) -> (r: String)
        ensures
            r@ == content_json_compat(
                self.content_type@,
                crate::block::opt_view(self.contents),
                crate::block::opt_view(self.title),
            ),
    {
        let mut out = String::new();
        out.append("{\"content_type\":");
        push_quoted_compat(&mut out, self.content_type.as_str());
        out.append(",\"contents\":");
        match &self.contents {
            Some(s) => push_quoted_compat(&mut out, s.as_str()),
            None => out.append("null"),
        }
        out.append(",\"title\":");
        match &self.title {
            Some(s) => push_quoted_compat(&mut out, s.as_str()),
            None => out.append("null"),
        }
        out.append("}");
        proof {
            assert(out@ =~= content_json_compat(
                self.content_type@,
                crate::block::opt_view(self.contents),
                crate::block::opt_view(self.title),
            ));
        }
        out
    }

    /// Decode a stored payload text. Strict: the decoder accepts exactly
    /// the canonical encoding and the original application's variant of it
    /// (`\b` and `\f` short escapes), so a successful decode re-encodes,
    /// one way or the other, to exactly the input text; any other input is
    /// a decode error.
    pub fn from_json_string(json_string: &str) -> (r: Result<Self, BlockError>)
        ensures
            r matches Ok(c) ==> (json_string@ == content_json(
                c.content_type@,
                crate::block::opt_view(c.contents),
                crate::block::opt_view(c.title),
            ) || json_string@ == content_json_compat(
                c.content_type@,
                crate::block::opt_view(c.contents),
                crate::block::opt_view(c.title),
            )),
            r is Err ==> r == Err::<Self, BlockError>(BlockError::DecodeError),
            (exists|ct: Seq<char>, co: Option<Seq<char>>, ti: Option<Seq<char>>|
                json_string@ == #[trigger] content_json(ct, co, ti)) ==> r is Ok,
    {
        let v = chars_of(json_string);
        let candidate = match parse_object(&v) {
            Some(c) => c,
            None => {
                proof {
                    if exists|ct: Seq<char>, co: Option<Seq<char>>, ti: Option<Seq<char>>|
                        json_string@ == #[trigger] content_json(ct, co, ti) {
                        let (ct, co, ti) = choose|
                            ct: Seq<char>,
                            co: Option<Seq<char>>,
                            ti: Option<Seq<char>>,
                        | json_string@ == #[trigger] content_json(ct, co, ti);
                        assert(v@ == content_json(ct, co, ti));
                        assert(false);
                    }
                }
                return Err(BlockError::DecodeError);
            },
        };
        let reencoded = candidate.to_json();
        if str_eq(json_string, reencoded.as_str()) {
            return Ok(candidate);
        }
        let reencoded_compat = candidate.to_json_compat();
        if str_eq(json_string, reencoded_compat.as_str()) {
            Ok(candidate)
        } else {
            proof {
                if exists|ct: Seq<char>, co: Option<Seq<char>>, ti: Option<Seq<char>>|
                    json_string@ == #[trigger] content_json(ct, co, ti) {
                    let (ct, co, ti) = choose|
                        ct: Seq<char>,
                        co: Option<Seq<char>>,
                        ti: Option<Seq<char>>,
                    | json_string@ == #[trigger] content_json(ct, co, ti);
                    assert(v@ == content_json(ct, co, ti));
                    assert(reencoded@ == content_json(ct, co, ti));
                    assert(false);
                }
            }
            Err(BlockError::DecodeError)
        }
    }
}

proof fn lemma_esc_concat(a: Seq<char>, b: Seq<char>)
    ensures
        esc(a + b) == esc(a) + esc(b),
    decreases b.len(),
{
    if b.len() == 0 {
        assert(a + b =~= a);
        assert(esc(a) + esc(b) =~= esc(a));
    } else {
        lemma_esc_concat(a, b.drop_last());
        assert((a + b).drop_last() =~= a + b.drop_last());
        assert((a + b).last() == b.last());
        assert(esc(a) + (esc(b.drop_last()) + esc_char(b.last())) =~= (esc(a) + esc(b.drop_last()))
            + esc_char(b.last()));
    }
}

proof fn lemma_string_at(v: Seq<char>, at: int, s: Seq<char>, rest: Seq<char>, k: int)
    requires
        0 <= at <= v.len(),
        v.skip(at) == quoted(s) + rest,
        0 <= k <= s.len(),
    ensures
        v.len() == at + 2 + esc(s).len() + rest.len(),
        v[at] == '"',
        forall|j: int| 0 <= j < esc(s).len() ==> v[at + 1 + j] == esc(s)[j],
        v[at + 1 + esc(s).len()] == '"',
        esc(s.take(k)).len() <= esc(s).len(),
        esc(s) == esc(s.take(k)) + esc(s.skip(k)),
        k < s.len() ==> esc(s.skip(k)) == esc_char(s[k]) + esc(s.skip(k + 1)),
        k < s.len() ==> esc(s.take(k + 1)) == esc(s.take(k)) + esc_char(s[k]),
        k < s.len() ==> 1 <= esc_char(s[k]).len() <= 6,
        k < s.len() ==> s.take(k + 1) == s.take(k).push(s[k]),
        s.take(s.len() as int) == s,
{
    lemma_esc_concat(s.take(k), s.skip(k));
    assert(s.take(k) + s.skip(k) =~= s);
    if k < s.len() {
        lemma_esc_concat(seq![s[k]], s.skip(k + 1));
        assert(seq![s[k]] + s.skip(k + 1) =~= s.skip(k));
        assert(seq![s[k]].drop_last() =~= Seq::<char>::empty());
        assert(seq![s[k]].drop_last() == Seq::<char>::empty());
        assert(seq![s[k]].last() == s[k]);
        assert(esc(seq![s[k]]) == esc(Seq::<char>::empty()) + esc_char(s[k]));
        assert(Seq::<char>::empty() + esc_char(s[k]) =~= esc_char(s[k]));
        lemma_esc_concat(s.take(k), seq![s[k]]);
        assert(s.take(k) + seq![s[k]] =~= s.take(k + 1));
        assert(s.take(k + 1) =~= s.take(k).push(s[k]));
    }
    assert(s.take(s.len() as int) =~= s);
    let q = quoted(s) + rest;
    assert(v.skip(at).len() == v.len() - at);
    assert(v[at] == v.skip(at)[0]);
    assert(q[0] == '"');
    assert forall|j: int| 0 <= j < esc(s).len() implies v[at + 1 + j] == esc(s)[j] by {
        assert(v[at + 1 + j] == v.skip(at)[1 + j]);
        assert(q[1 + j] == quoted(s)[1 + j]);
        assert(quoted(s)[1 + j] == esc(s)[j]);
    }
    let e = esc(s).len() as int;
    assert(v[at + 1 + e] == v.skip(at)[1 + e]);
    assert(q[1 + e] == quoted(s)[1 + e]);
    assert(quoted(s)[1 + e] == '"');
}

proof fn lemma_mid_string(v: Seq<char>, at: int, s: Seq<char>, rest: Seq<char>, k: int, i: int)
    requires
        0 <= at <= v.len(),
        v.skip(at) == quoted(s) + rest,
        0 <= k <= s.len(),
        i == at + 1 + esc(s.take(k)).len(),
    ensures
        at < i <= at + 1 + esc(s).len(),
        at + 1 + esc(s).len() < v.len(),
        k == s.len() ==> i == at + 1 + esc(s).len() && v[i] == '"' && s.take(k) == s,
        k < s.len() ==> forall|j: int|
            0 <= j < esc_char(s[k]).len() ==> v[i + j] == esc_char(s[k])[j],
        k < s.len() ==> v[i] == esc_char(s[k])[0],
        k < s.len() && esc_char(s[k]).len() >= 2 ==> v[i + 1] == esc_char(s[k])[1],
        k < s.len() && esc_char(s[k]).len() == 6 ==> v[i + 2] == esc_char(s[k])[2] && v[i + 3]
            == esc_char(s[k])[3] && v[i + 4] == esc_char(s[k])[4] && v[i + 5] == esc_char(s[k])[5],
        k < s.len() ==> i + esc_char(s[k]).len() <= at + 1 + esc(s).len(),
        k < s.len() ==> esc(s.take(k + 1)).len() == esc(s.take(k)).len() + esc_char(s[k]).len(),
        k < s.len() ==> s.take(k + 1) == s.take(k).push(s[k]),
        k < s.len() ==> 1 <= esc_char(s[k]).len() <= 6,
        v.len() == at + 2 + esc(s).len() + rest.len(),
{
    lemma_string_at(v, at, s, rest, k);
    if k < s.len() {
        assert(esc(s) == esc(s.take(k)) + (esc_char(s[k]) + esc(s.skip(k + 1))));
        assert forall|j: int| 0 <= j < esc_char(s[k]).len() implies v[i + j] == esc_char(s[k])[j] by {
            let off = esc(s.take(k)).len() as int;
            assert(esc(s)[off + j] == (esc_char(s[k]) + esc(s.skip(k + 1)))[j]);
            assert(v[at + 1 + (off + j)] == esc(s)[off + j]);
        }
        assert(v[i + 0] == esc_char(s[k])[0]);
        if esc_char(s[k]).len() >= 2 {
            assert(v[i + 1] == esc_char(s[k])[1]);
        }
        if esc_char(s[k]).len() == 6 {
            assert(v[i + 2] == esc_char(s[k])[2]);
            assert(v[i + 3] == esc_char(s[k])[3]);
            assert(v[i + 4] == esc_char(s[k])[4]);
            assert(v[i + 5] == esc_char(s[k])[5]);
        }
    }
}

proof fn lemma_u_case(v: Seq<char>, at: int, s: Seq<char>, rest: Seq<char>, k: int, i: int)
    requires
        0 <= at <= v.len(),
        v.skip(at) == quoted(s) + rest,
        0 <= k <= s.len(),
        i == at + 1 + esc(s.take(k)).len(),
        v[i] == '\\',
        v[i + 1] == 'u',
    ensures
        k < s.len(),
        (s[k] as u32) < 0x20,
        esc_char(s[k]).len() == 6,
        i + 6 <= v.len(),
        v[i + 2] == '0',
        v[i + 3] == '0',
        v[i + 4] == hex_digit((s[k] as u32) as int / 16),
        v[i + 5] == hex_digit((s[k] as u32) as int % 16),
        i + 6 == at + 1 + esc(s.take(k + 1)).len(),
        s.take(k + 1) == s.take(k).push(s[k]),
{
    lemma_mid_string(v, at, s, rest, k, i);
    if k == s.len() {
        assert(v[i] == '"');
        assert(false);
    }
    assert(v[i] == esc_char(s[k])[0]);
    assert(esc_char(s[k]).len() >= 2);
    assert(v[i + 1] == esc_char(s[k])[1]);
    assert(esc_char(s[k]).len() == 6);
    assert(v[i + 2] == esc_char(s[k])[2]);
    assert(v[i + 3] == esc_char(s[k])[3]);
    assert(v[i + 4] == esc_char(s[k])[4]);
    assert(v[i + 5] == esc_char(s[k])[5]);
}

/// Whether the characters of `lit` stand at position `at` of `v`; if so,
/// the position just past them.
fn expect_lit(v: &Vec<char>, at: usize, lit: &str) -> (r: Option<usize>)
    ensures
        r matches Some(j) ==> at + lit@.len() <= v@.len() && j == at + lit@.len() && v@.subrange(
            at as int,
            j as int,
        ) == lit@,
        at + lit@.len() <= v@.len() && v@.subrange(at as int, at as int + lit@.len()) == lit@
            ==> r is Some,
{
    let l = chars_of(lit);
    if at > v.len() || v.len() - at < l.len() {
        return None;
    }
    let mut i: usize = 0;
    while i < l.len()
        invariant
            l@ == lit@,
            at + l@.len() <= v@.len(),
            v@.len() <= usize::MAX,
            i <= l@.len(),
            forall|j: int| 0 <= j < i ==> v@[at + j] == l@[j],
        decreases l@.len() - i,
    {
        proof {
            assert(at + i < v@.len());
        }
        if v[at + i] != l[i] {
            proof {
                if v@.subrange(at as int, at as int + lit@.len()) == lit@ {
                    assert(v@.subrange(at as int, at as int + lit@.len())[i as int] == v@[at + i]);
                }
            }
            return None;
        }
        i = i + 1;
    }
    proof {
        assert(v@.subrange(at as int, at as int + lit@.len()) =~= lit@);
    }
    Some(at + l.len())
}

/// Read a JSON string value starting at the opening quote at `at`: the
/// unescaped contents and the position just past the closing quote. On a
/// text that continues with a whole canonical string literal, reading
/// succeeds and yields exactly that literal's contents.
#[verifier::rlimit(90)]
fn parse_string(v: &Vec<char>, at: usize) -> (r: Option<(String, usize)>)
    ensures
        r matches Some(p) ==> at < p.1 <= v.len(),
        forall|s: Seq<char>, rest: Seq<char>|
            at <= v@.len() && v@.skip(at as int) == #[trigger] (quoted(s) + rest) ==> (r matches Some(
                p,
            ) && p.0@ == s && p.1 == at + quoted(s).len()),
{
    if at >= v.len() || v[at] != '"' {
        proof {
            assert forall|s: Seq<char>, rest: Seq<char>|
                at <= v@.len() && v@.skip(at as int) == (quoted(s) + rest) implies false by {
                lemma_string_at(v@, at as int, s, rest, 0);
            }
        }
        return None;
    }
    let mut out: Vec<char> = Vec::new();
    let mut i: usize = at + 1;
    while i < v.len()
        invariant
            at < i <= v.len(),
            v@[at as int] == '"',
            forall|s: Seq<char>, rest: Seq<char>|
                at <= v@.len() && v@.skip(at as int) == #[trigger] (quoted(s) + rest) ==> (
                out@.len() <= s.len() && out@ == s.take(out@.len() as int) && i == at + 1 + esc(
                    s.take(out@.len() as int),
                ).len()),
        decreases v.len() - i,
    {
        let ghost out0 = out@;
        let ghost i0 = i as int;
        let c = v[i];
        if c == '"' {
            proof {
                assert forall|s: Seq<char>, rest: Seq<char>|
                    at <= v@.len() && v@.skip(at as int) == (quoted(s) + rest) implies (out@ == s
                    && i + 1 == at + quoted(s).len()) by {
                    let k = out0.len() as int;
                    lemma_mid_string(v@, at as int, s, rest, k, i0);
                    if k < s.len() {
                        assert(v@[i0] == esc_char(s[k])[0]);
                        assert(false);
                    }
                }
            }
            return Some((string_of(&out), i + 1));
        } else if c == '\\' {
            if i + 1 >= v.len() {
                proof {
                    assert forall|s: Seq<char>, rest: Seq<char>|
                        at <= v@.len() && v@.skip(at as int) == (quoted(s) + rest) implies false by {
                        let k = out0.len() as int;
                        lemma_mid_string(v@, at as int, s, rest, k, i0);
                        if k < s.len() {
                            assert(v@[i0] == esc_char(s[k])[0]);
                            assert(esc_char(s[k]).len() >= 2);
                        }
                    }
                }
                return None;
            }
            let e = v[i + 1];
            if e == 'b' || e == 'f' {
                proof {
                    assert forall|s: Seq<char>, rest: Seq<char>|
                        at <= v@.len() && v@.skip(at as int) == (quoted(s) + rest) implies false by {
                        let k = out0.len() as int;
                        lemma_mid_string(v@, at as int, s, rest, k, i0);
                        if k < s.len() {
                            assert(v@[i0] == esc_char(s[k])[0]);
                            assert(v@[i0 + 1] == esc_char(s[k])[1]);
                        }
                    }
                }
                let decoded: char = if e == 'b' {
                    '\u{08}'
                } else {
                    '\u{0c}'
                };
                out.push(decoded);
                i = i + 2;
            } else if e == '"' || e == '\\' || e == 'n' || e == 't' || e == 'r' {
                let decoded: char = if e == '"' {
                    '"'
                } else if e == '\\' {
                    '\\'
                } else if e == 'n' {
                    '\n'
                } else if e == 't' {
                    '\t'
                } else {
                    '\r'
                };
                out.push(decoded);
                i = i + 2;
                proof {
                    assert forall|s: Seq<char>, rest: Seq<char>|
                        at <= v@.len() && v@.skip(at as int) == (quoted(s) + rest) implies (
                        out@.len() <= s.len() && out@ == s.take(out@.len() as int) && i == at + 1
                            + esc(s.take(out@.len() as int)).len()) by {
                        let k = out0.len() as int;
                        lemma_mid_string(v@, at as int, s, rest, k, i0);
                        assert(k < s.len());
                        assert(v@[i0] == esc_char(s[k])[0]);
                        assert(v@[i0 + 1] == esc_char(s[k])[1]);
                        assert(s[k] == decoded);
                        assert(out@ =~= s.take(k + 1));
                    }
                }
            } else if e == 'u' {
                if v.len() - i < 6 {
                    proof {
                        assert forall|s: Seq<char>, rest: Seq<char>|
                            at <= v@.len() && v@.skip(at as int) == (quoted(s) + rest)
                            implies false by {
                            lemma_u_case(v@, at as int, s, rest, out0.len() as int, i0);
                        }
                    }
                    return None;
                }
                if v[i + 2] != '0' || v[i + 3] != '0' {
                    proof {
                        assert forall|s: Seq<char>, rest: Seq<char>|
                            at <= v@.len() && v@.skip(at as int) == (quoted(s) + rest)
                            implies false by {
                            lemma_u_case(v@, at as int, s, rest, out0.len() as int, i0);
                        }
                    }
                    return None;
                }
                let hi = match hex_value(v[i + 4]) {
                    Some(h) => h,
                    None => {
                        proof {
                            assert forall|s: Seq<char>, rest: Seq<char>|
                                at <= v@.len() && v@.skip(at as int) == (quoted(s) + rest)
                                implies false by {
                                lemma_u_case(v@, at as int, s, rest, out0.len() as int, i0);
                                let cc = (s[out0.len() as int] as u32) as int;
                                assert(0 <= cc / 16 < 16);
                            }
                        }
                        return None;
                    },
                };
                let lo = match hex_value(v[i + 5]) {
                    Some(h) => h,
                    None => {
                        proof {
                            assert forall|s: Seq<char>, rest: Seq<char>|
                                at <= v@.len() && v@.skip(at as int) == (quoted(s) + rest)
                                implies false by {
                                lemma_u_case(v@, at as int, s, rest, out0.len() as int, i0);
                                let cc = (s[out0.len() as int] as u32) as int;
                                assert(0 <= cc % 16 < 16);
                            }
                        }
                        return None;
                    },
                };
                let code = hi * 16 + lo;
                let c2 = match low_code_char(code) {
                    Some(c2) => c2,
                    None => {
                        proof {
                            assert forall|s: Seq<char>, rest: Seq<char>|
                                at <= v@.len() && v@.skip(at as int) == (quoted(s) + rest)
                                implies false by {
                                lemma_u_case(v@, at as int, s, rest, out0.len() as int, i0);
                                let cc = (s[out0.len() as int] as u32) as int;
                                assert(0 <= cc / 16 < 16);
                                assert(0 <= cc % 16 < 16);
                                assert(hi == cc / 16 && lo == cc % 16);
                                assert(code == s[out0.len() as int] as u32);
                                assert(code < 0x20);
                            }
                        }
                        return None;
                    },
                };
                proof {
                    assert forall|s: Seq<char>, rest: Seq<char>|
                        at <= v@.len() && v@.skip(at as int) == (quoted(s) + rest) implies (
                        out0.len() < s.len() && c2 == s[out0.len() as int]) by {
                        let k = out0.len() as int;
                        lemma_u_case(v@, at as int, s, rest, k, i0);
                        let cc = (s[k] as u32) as int;
                        assert(0 <= cc / 16 < 16);
                        assert(0 <= cc % 16 < 16);
                        assert(hi == cc / 16 && lo == cc % 16);
                        assert(code == s[k] as u32);
                        assert(code < 0x20);
                        assert(c2 as u32 == code);
                        vstd::utf8::char_u32_cast(c2, code);
                        vstd::utf8::char_u32_cast(s[k], code);
                    }
                }
                out.push(c2);
                i = i + 6;
                proof {
                    assert forall|s: Seq<char>, rest: Seq<char>|
                        at <= v@.len() && v@.skip(at as int) == (quoted(s) + rest) implies (
                        out@.len() <= s.len() && out@ == s.take(out@.len() as int) && i == at + 1
                            + esc(s.take(out@.len() as int)).len()) by {
                        let k = out0.len() as int;
                        lemma_u_case(v@, at as int, s, rest, k, i0);
                        assert(c2 == s[k]);
                        assert(out@ =~= s.take(k + 1));
                    }
                }
            } else {
                proof {
                    assert forall|s: Seq<char>, rest: Seq<char>|
                        at <= v@.len() && v@.skip(at as int) == (quoted(s) + rest) implies false by {
                        let k = out0.len() as int;
                        lemma_mid_string(v@, at as int, s, rest, k, i0);
                        if k < s.len() {
                            assert(v@[i0] == esc_char(s[k])[0]);
                            assert(v@[i0 + 1] == esc_char(s[k])[1]);
                        }
                    }
                }
                return None;
            }
        } else {
            out.push(c);
            i = i + 1;
            proof {
                assert forall|s: Seq<char>, rest: Seq<char>|
                    at <= v@.len() && v@.skip(at as int) == (quoted(s) + rest) implies (out@.len()
                    <= s.len() && out@ == s.take(out@.len() as int) && i == at + 1 + esc(
                    s.take(out@.len() as int),
                ).len()) by {
                    let k = out0.len() as int;
                    lemma_mid_string(v@, at as int, s, rest, k, i0);
                    assert(k < s.len());
                    assert(v@[i0] == esc_char(s[k])[0]);
                    assert(esc_char(s[k]) == seq![s[k]]);
                    assert(out@ =~= s.take(k + 1));
                }
            }
        }
    }
    proof {
        assert forall|s: Seq<char>, rest: Seq<char>|
            at <= v@.len() && v@.skip(at as int) == (quoted(s) + rest) implies false by {
            lemma_mid_string(v@, at as int, s, rest, out@.len() as int, i as int);
        }
    }
    None
}

/// The nibble a hex digit character stands for.
fn hex_value(c: char) -> (r: Option<u32>)
    ensures
        r matches Some(h) ==> h < 16,
        forall|n: int| 0 <= n < 16 && c == #[trigger] hex_digit(n) ==> r == Some(n as u32),
{
    if c == '0' {
        Some(0)
    } else if c == '1' {
        Some(1)
    } else if c == '2' {
        Some(2)
    } else if c == '3' {
        Some(3)
    } else if c == '4' {
        Some(4)
    } else if c == '5' {
        Some(5)
    } else if c == '6' {
        Some(6)
    } else if c == '7' {
        Some(7)
    } else if c == '8' {
        Some(8)
    } else if c == '9' {
        Some(9)
    } else if c == 'a' {
        Some(10)
    } else if c == 'b' {
        Some(11)
    } else if c == 'c' {
        Some(12)
    } else if c == 'd' {
        Some(13)
    } else if c == 'e' {
        Some(14)
    } else if c == 'f' {
        Some(15)
    } else {
        None
    }
}

/// The character with the given code, if below `0x20`.
fn low_code_char(code: u32) -> (r: Option<char>)
    ensures
        code < 0x20 ==> (r matches Some(c) && c as u32 == code),
{
    let r: Option<char> = if code == 0x00 {
        Some('\u{00}')
    } else if code == 0x01 {
        Some('\u{01}')
    } else if code == 0x02 {
        Some('\u{02}')
    } else if code == 0x03 {
        Some('\u{03}')
    } else if code == 0x04 {
        Some('\u{04}')
    } else if code == 0x05 {
        Some('\u{05}')
    } else if code == 0x06 {
        Some('\u{06}')
    } else if code == 0x07 {
        Some('\u{07}')
    } else if code == 0x08 {
        Some('\u{08}')
    } else if code == 0x09 {
        Some('\u{09}')
    } else if code == 0x0a {
        Some('\u{0a}')
    } else if code == 0x0b {
        Some('\u{0b}')
    } else if code == 0x0c {
        Some('\u{0c}')
    } else if code == 0x0d {
        Some('\u{0d}')
    } else if code == 0x0e {
        Some('\u{0e}')
    } else if code == 0x0f {
        Some('\u{0f}')
    } else if code == 0x10 {
        Some('\u{10}')
    } else if code == 0x11 {
        Some('\u{11}')
    } else if code == 0x12 {
        Some('\u{12}')
    } else if code == 0x13 {
        Some('\u{13}')
    } else if code == 0x14 {
        Some('\u{14}')
    } else if code == 0x15 {
        Some('\u{15}')
    } else if code == 0x16 {
        Some('\u{16}')
    } else if code == 0x17 {
        Some('\u{17}')
    } else if code == 0x18 {
        Some('\u{18}')
    } else if code == 0x19 {
        Some('\u{19}')
    } else if code == 0x1a {
        Some('\u{1a}')
    } else if code == 0x1b {
        Some('\u{1b}')
    } else if code == 0x1c {
        Some('\u{1c}')
    } else if code == 0x1d {
        Some('\u{1d}')
    } else if code == 0x1e {
        Some('\u{1e}')
    } else if code == 0x1f {
        Some('\u{1f}')
    } else {
        None
    };
    proof {
        broadcast use vstd::utf8::char_u32_cast;

        vstd::utf8::char_u32_cast('\u{00}', 0x00);
        vstd::utf8::char_u32_cast('\u{01}', 0x01);
        vstd::utf8::char_u32_cast('\u{02}', 0x02);
        vstd::utf8::char_u32_cast('\u{03}', 0x03);
        vstd::utf8::char_u32_cast('\u{04}', 0x04);
        vstd::utf8::char_u32_cast('\u{05}', 0x05);
        vstd::utf8::char_u32_cast('\u{06}', 0x06);
        vstd::utf8::char_u32_cast('\u{07}', 0x07);
        vstd::utf8::char_u32_cast('\u{08}', 0x08);
        vstd::utf8::char_u32_cast('\u{09}', 0x09);
        vstd::utf8::char_u32_cast('\u{0a}', 0x0a);
        vstd::utf8::char_u32_cast('\u{0b}', 0x0b);
        vstd::utf8::char_u32_cast('\u{0c}', 0x0c);
        vstd::utf8::char_u32_cast('\u{0d}', 0x0d);
        vstd::utf8::char_u32_cast('\u{0e}', 0x0e);
        vstd::utf8::char_u32_cast('\u{0f}', 0x0f);
        vstd::utf8::char_u32_cast('\u{10}', 0x10);
        vstd::utf8::char_u32_cast('\u{11}', 0x11);
        vstd::utf8::char_u32_cast('\u{12}', 0x12);
        vstd::utf8::char_u32_cast('\u{13}', 0x13);
        vstd::utf8::char_u32_cast('\u{14}', 0x14);
        vstd::utf8::char_u32_cast('\u{15}', 0x15);
        vstd::utf8::char_u32_cast('\u{16}', 0x16);
        vstd::utf8::char_u32_cast('\u{17}', 0x17);
        vstd::utf8::char_u32_cast('\u{18}', 0x18);
        vstd::utf8::char_u32_cast('\u{19}', 0x19);
        vstd::utf8::char_u32_cast('\u{1a}', 0x1a);
        vstd::utf8::char_u32_cast('\u{1b}', 0x1b);
        vstd::utf8::char_u32_cast('\u{1c}', 0x1c);
        vstd::utf8::char_u32_cast('\u{1d}', 0x1d);
        vstd::utf8::char_u32_cast('\u{1e}', 0x1e);
        vstd::utf8::char_u32_cast('\u{1f}', 0x1f);
    }
    r
}

/// Read an optional string value (a string literal or `null`) at `at`.
fn parse_opt_string(v: &Vec<char>, at: usize) -> (r: Option<(Option<String>, usize)>)
    ensures
        r matches Some(p) ==> at <= p.1 <= v.len(),
        forall|rest: Seq<char>|
            at <= v@.len() && v@.skip(at as int) == #[trigger] ("null"@ + rest) ==> (r matches Some(
                p,
            ) && p.0 is None && p.1 == at + "null"@.len()),
        forall|s: Seq<char>, rest: Seq<char>|
            at <= v@.len() && v@.skip(at as int) == #[trigger] (quoted(s) + rest) ==> (r matches Some(
                p,
            ) && (p.0 matches Some(cs) && cs@ == s) && p.1 == at + quoted(s).len()),
{
    match expect_lit(v, at, "null") {
        Some(j) => {
            proof {
                assert forall|s: Seq<char>, rest: Seq<char>|
                    at <= v@.len() && v@.skip(at as int) == (quoted(s) + rest) implies false by {
                    lemma_string_at(v@, at as int, s, rest, 0);
                    reveal_strlit("null");
                    assert(v@.subrange(at as int, at as int + "null"@.len())[0] == v@[at as int]);
                }
            }
            Some((None, j))
        },
        None => match parse_string(v, at) {
            Some((s, j)) => {
                proof {
                    assert forall|rest: Seq<char>|
                        at <= v@.len() && v@.skip(at as int) == ("null"@ + rest) implies false by {
                        assert(v@.skip(at as int).len() == v@.len() - at);
                        assert(at as int + "null"@.len() <= v@.len());
                        assert forall|q: int| 0 <= q < "null"@.len() implies v@[at + q]
                            == "null"@[q] by {
                            assert(v@[at + q] == v@.skip(at as int)[q]);
                            assert(("null"@ + rest)[q] == "null"@[q]);
                        }
                        assert(v@.subrange(at as int, at as int + "null"@.len()) =~= "null"@);
                    }
                }
                Some((Some(s), j))
            },
            None => {
                proof {
                    assert forall|rest: Seq<char>|
                        at <= v@.len() && v@.skip(at as int) == ("null"@ + rest) implies false by {
                        assert(v@.skip(at as int).len() == v@.len() - at);
                        assert(at as int + "null"@.len() <= v@.len());
                        assert forall|q: int| 0 <= q < "null"@.len() implies v@[at + q]
                            == "null"@[q] by {
                            assert(v@[at + q] == v@.skip(at as int)[q]);
                            assert(("null"@ + rest)[q] == "null"@[q]);
                        }
                        assert(v@.subrange(at as int, at as int + "null"@.len()) =~= "null"@);
                    }
                }
                None
            },
        },
    }
}

proof fn lemma_canonical_positions(
    v: Seq<char>,
    ct: Seq<char>,
    co: Option<Seq<char>>,
    ti: Option<Seq<char>>,
)
    requires
        v == content_json(ct, co, ti),
    ensures
        ({
            let l1 = "{\"content_type\":"@;
            let l2 = ",\"contents\":"@;
            let l3 = ",\"title\":"@;
            let l4 = "}"@;
            let a1 = l1.len() as int;
            let a2 = a1 + quoted(ct).len();
            let a3 = a2 + l2.len();
            let a4 = a3 + opt_json(co).len();
            let a5 = a4 + l3.len();
            let a6 = a5 + opt_json(ti).len();
            &&& v.len() == a6 + l4.len()
            &&& a1 <= v.len() && v.subrange(0, a1) == l1
            &&& v.skip(a1) == quoted(ct) + (l2 + opt_json(co) + (l3 + opt_json(ti) + l4))
            &&& a3 <= v.len() && v.subrange(a2, a3) == l2
            &&& v.skip(a3) == opt_json(co) + (l3 + opt_json(ti) + l4)
            &&& a5 <= v.len() && v.subrange(a4, a5) == l3
            &&& v.skip(a5) == opt_json(ti) + l4
            &&& a6 + l4.len() <= v.len() && v.subrange(a6, a6 + l4.len()) == l4
        }),
{
    let l1 = "{\"content_type\":"@;
    let l2 = ",\"contents\":"@;
    let l3 = ",\"title\":"@;
    let l4 = "}"@;
    let a1 = l1.len() as int;
    let a2 = a1 + quoted(ct).len();
    let a3 = a2 + l2.len();
    let a4 = a3 + opt_json(co).len();
    let a5 = a4 + l3.len();
    let a6 = a5 + opt_json(ti).len();
    assert(v.subrange(0, a1) =~= l1);
    assert(v.skip(a1) =~= quoted(ct) + (l2 + opt_json(co) + (l3 + opt_json(ti) + l4)));
    assert(v.subrange(a2, a3) =~= l2);
    assert(v.skip(a3) =~= opt_json(co) + (l3 + opt_json(ti) + l4));
    assert(v.subrange(a4, a5) =~= l3);
    assert(v.skip(a5) =~= opt_json(ti) + l4);
    assert(v.subrange(a6, a6 + l4.len()) =~= l4);
}

/// Read the whole canonical payload object; a text that is the canonical
/// encoding of some payload is always read, to exactly that payload.
#[verifier::rlimit(90)]
fn parse_object(v: &Vec<char>) -> (r: Option<BlockContent>)
    ensures
        forall|ct: Seq<char>, co: Option<Seq<char>>, ti: Option<Seq<char>>|
            v@ == #[trigger] content_json(ct, co, ti) ==> (r matches Some(c) && c.content_type@
                == ct && crate::block::opt_view(c.contents) == co && crate::block::opt_view(
                c.title,
            ) == ti),
{
    let at = match expect_lit(v, 0, "{\"content_type\":") {
        Some(j) => j,
        None => {
            proof {
                assert forall|ct: Seq<char>, co: Option<Seq<char>>, ti: Option<Seq<char>>|
                    v@ == content_json(ct, co, ti) implies false by {
                    lemma_canonical_positions(v@, ct, co, ti);
                }
            }
            return None;
        },
    };
    let (content_type, at) = match parse_string(v, at) {
        Some(p) => p,
        None => {
            proof {
                assert forall|ct: Seq<char>, co: Option<Seq<char>>, ti: Option<Seq<char>>|
                    v@ == content_json(ct, co, ti) implies false by {
                    lemma_canonical_positions(v@, ct, co, ti);
                }
            }
            return None;
        },
    };
    let at = match expect_lit(v, at, ",\"contents\":") {
        Some(j) => j,
        None => {
            proof {
                assert forall|ct: Seq<char>, co: Option<Seq<char>>, ti: Option<Seq<char>>|
                    v@ == content_json(ct, co, ti) implies false by {
                    lemma_canonical_positions(v@, ct, co, ti);
                }
            }
            return None;
        },
    };
    let (contents, at) = match parse_opt_string(v, at) {
        Some(p) => p,
        None => {
            proof {
                assert forall|ct: Seq<char>, co: Option<Seq<char>>, ti: Option<Seq<char>>|
                    v@ == content_json(ct, co, ti) implies false by {
                    lemma_canonical_positions(v@, ct, co, ti);
                }
            }
            return None;
        },
    };
    let at = match expect_lit(v, at, ",\"title\":") {
        Some(j) => j,
        None => {
            proof {
                assert forall|ct: Seq<char>, co: Option<Seq<char>>, ti: Option<Seq<char>>|
                    v@ == content_json(ct, co, ti) implies false by {
                    lemma_canonical_positions(v@, ct, co, ti);
                }
            }
            return None;
        },
    };
    let (title, at) = match parse_opt_string(v, at) {
        Some(p) => p,
        None => {
            proof {
                assert forall|ct: Seq<char>, co: Option<Seq<char>>, ti: Option<Seq<char>>|
                    v@ == content_json(ct, co, ti) implies false by {
                    lemma_canonical_positions(v@, ct, co, ti);
                }
            }
            return None;
        },
    };
    let at = match expect_lit(v, at, "}") {
        Some(j) => j,
        None => {
            proof {
                assert forall|ct: Seq<char>, co: Option<Seq<char>>, ti: Option<Seq<char>>|
                    v@ == content_json(ct, co, ti) implies false by {
                    lemma_canonical_positions(v@, ct, co, ti);
                }
            }
            return None;
        },
    };
    if at != v.len() {
        proof {
            assert forall|ct: Seq<char>, co: Option<Seq<char>>, ti: Option<Seq<char>>|
                v@ == content_json(ct, co, ti) implies false by {
                lemma_canonical_positions(v@, ct, co, ti);
            }
        }
        return None;
    }
    proof {
        assert forall|ct: Seq<char>, co: Option<Seq<char>>, ti: Option<Seq<char>>|
            v@ == content_json(ct, co, ti) implies (content_type@ == ct && crate::block::opt_view(
            contents,
        ) == co && crate::block::opt_view(title) == ti) by {
            lemma_canonical_positions(v@, ct, co, ti);
        }
    }
    Some(BlockContent { content_type, contents, title })
}

} // verus!
