use vstd::prelude::*;

use crate::error::I18nError;
use crate::error::opt_text;

verus! {

/// Characters that cannot stand raw inside a JSON string: the control range,
/// the quote, and the backslash.
pub open spec fn must_escape(c: char) -> bool {
    (c as u32) < 0x20 || c == '"' || c == '\\'
}

/// The lowercase hexadecimal digit for a value below sixteen.
pub open spec fn hex_digit(n: int) -> char {
    if n == 0 {
        '0'
    } else if n == 1 {
        '1'
    } else if n == 2 {
        '2'
    } else if n == 3 {
        '3'
    } else if n == 4 {
        '4'
    } else if n == 5 {
        '5'
    } else if n == 6 {
        '6'
    } else if n == 7 {
        '7'
    } else if n == 8 {
        '8'
    } else if n == 9 {
        '9'
    } else if n == 10 {
        'a'
    } else if n == 11 {
        'b'
    } else if n == 12 {
        'c'
    } else if n == 13 {
        'd'
    } else if n == 14 {
        'e'
    } else {
        'f'
    }
}

/// The JSON encoding of one character: itself where it may stand raw, else a
/// six-character `\u00xx` escape.
pub open spec fn escape_char(c: char) -> Seq<char> {
    if must_escape(c) {
        seq!['\\', 'u', '0', '0', hex_digit(((c as u32) / 16) as int), hex_digit(
            ((c as u32) % 16) as int,
        )]
    } else {
        seq![c]
    }
}

/// The JSON encoding of a character sequence, unit by unit.
pub open spec fn escape_seq(s: Seq<char>) -> Seq<char>
    decreases s.len(),
{
    if s.len() == 0 {
        Seq::<char>::empty()
    } else {
        escape_char(s[0]) + escape_seq(s.skip(1))
    }
}

/// The JSON rendering of the optional diagnostic text: `null` when absent, a
/// quoted string when present.
pub open spec fn details_text_json(d: Option<Seq<char>>) -> Seq<char> {
    match d {
        None => "null"@,
        Some(t) => seq!['"'] + escape_seq(t) + seq!['"'],
    }
}

/// The canonical JSON object for a record: camel-cased field names in fixed
/// order, `detailsText` rendered as `null` when absent.
pub open spec fn json_of(
    error: Seq<char>,
    error_text: Seq<char>,
    details: Seq<char>,
    details_text: Option<Seq<char>>,
) -> Seq<char> {
    "{\"error\":\""@ + escape_seq(error) + "\",\"errorText\":\""@ + escape_seq(error_text)
        + "\",\"details\":\""@ + escape_seq(details) + "\",\"detailsText\":"@ + details_text_json(
        details_text,
    ) + "}"@
}

/// Relies on `String::push`: appends exactly the one character.
#[verifier::external_body]
fn push_char(out: &mut String, c: char)
    ensures
        final(out)@ == old(out)@.push(c),
{
    out.push(c);
}

fn hex_digit_char(n: u32) -> (c: char)
    requires
        n < 16,
    ensures
        c == hex_digit(n as int),
{
    if n == 0 {
        '0'
    } else if n == 1 {
        '1'
    } else if n == 2 {
        '2'
    } else if n == 3 {
        '3'
    } else if n == 4 {
        '4'
    } else if n == 5 {
        '5'
    } else if n == 6 {
        '6'
    } else if n == 7 {
        '7'
    } else if n == 8 {
        '8'
    } else if n == 9 {
        '9'
    } else if n == 10 {
        'a'
    } else if n == 11 {
        'b'
    } else if n == 12 {
        'c'
    } else if n == 13 {
        'd'
    } else if n == 14 {
        'e'
    } else {
        'f'
    }
}

/// Encoding distributes over concatenation.
proof fn lemma_escape_append(a: Seq<char>, b: Seq<char>)
    ensures
        escape_seq(a + b) == escape_seq(a) + escape_seq(b),
    decreases a.len(),
{
    if a.len() == 0 {
        assert(a + b =~= b);
        assert(escape_seq(a) + escape_seq(b) =~= escape_seq(b));
    } else {
        assert((a + b).skip(1) =~= a.skip(1) + b);
        lemma_escape_append(a.skip(1), b);
        assert((a + b)[0] == a[0]);
        assert(escape_char(a[0]) + (escape_seq(a.skip(1)) + escape_seq(b)) =~= (escape_char(a[0])
            + escape_seq(a.skip(1))) + escape_seq(b));
    }
}

/// Encoding one more character appends exactly that character's unit.
proof fn lemma_escape_snoc(s: Seq<char>, i: int)
    requires
        0 <= i < s.len(),
    ensures
        escape_seq(s.take(i + 1)) == escape_seq(s.take(i)) + escape_char(s[i]),
{
    assert(s.take(i + 1) =~= s.take(i) + seq![s[i]]);
    lemma_escape_append(s.take(i), seq![s[i]]);
    let u = seq![s[i]];
    assert(u.skip(1) =~= Seq::<char>::empty());
    assert(escape_seq(Seq::<char>::empty()) == Seq::<char>::empty());
    assert(escape_seq(u) == escape_char(u[0]) + escape_seq(u.skip(1)));
    assert(escape_char(s[i]) + Seq::<char>::empty() =~= escape_char(s[i]));
}

/// Appends the JSON encoding of `s` to `out`.
fn append_escaped(out: &mut String, s: &str)
    ensures
        final(out)@ == old(out)@ + escape_seq(s@),
{
    let len = s.unicode_len();
    let mut i: usize = 0;
    while i < len
        invariant
            i <= len,
            len == s@.len(),
            out@ == old(out)@ + escape_seq(s@.take(i as int)),
        decreases len - i,
    {
        let c = s.get_char(i);
        proof {
            lemma_escape_snoc(s@, i as int);
        }
        if (c as u32) < 0x20 || c == '"' || c == '\\' {
            let code = c as u32;
            let ghost before = out@;
            push_char(out, '\\');
            push_char(out, 'u');
            push_char(out, '0');
            push_char(out, '0');
            push_char(out, hex_digit_char(code / 16));
            push_char(out, hex_digit_char(code % 16));
            proof {
                assert(out@ =~= before + escape_char(c));
                assert(before + escape_char(c) =~= old(out)@ + escape_seq(s@.take(i as int + 1)));
            }
        } else {
            let ghost before = out@;
            push_char(out, c);
            proof {
                assert(out@ =~= before + escape_char(c));
                assert(before + escape_char(c) =~= old(out)@ + escape_seq(s@.take(i as int + 1)));
            }
        }
        i = i + 1;
    }
    proof {
        assert(s@.take(len as int) =~= s@);
    }
}

impl I18nError {
    /// Serializes the record to its canonical JSON object.
    pub fn as_json(&self) -> (r: String)
        ensures
            r@ == json_of(self.error@, self.error_text@, self.details@, opt_text(self.details_text)),
    {
        let mut out = String::new();
        out.append("{\"error\":\"");
        append_escaped(&mut out, self.error.as_str());
        out.append("\",\"errorText\":\"");
        append_escaped(&mut out, self.error_text.as_str());
        out.append("\",\"details\":\"");
        append_escaped(&mut out, self.details.as_str());
        out.append("\",\"detailsText\":");
        match &self.details_text {
            None => {
                out.append("null");
            },
            Some(d) => {
                out.append("\"");
                append_escaped(&mut out, d.as_str());
                out.append("\"");
                proof {
                    reveal_strlit("\"");
                    assert("\""@ =~= seq!['"']);
                }
            },
        }
        out.append("}");
        proof {
            assert(out@ =~= json_of(
                self.error@,
                self.error_text@,
                self.details@,
                opt_text(self.details_text),
            ));
        }
        out
    }
}

/// No character of the sequence is a quote.
spec fn no_quote(s: Seq<char>) -> bool {
    forall|k: int| 0 <= k < s.len() ==> s[k] != '"'
}

proof fn lemma_escape_char_shape(c: char)
    ensures
        escape_char(c).len() >= 1,
        no_quote(escape_char(c)),
        must_escape(c) ==> escape_char(c).len() == 6 && escape_char(c)[0] == '\\',
        !must_escape(c) ==> escape_char(c).len() == 1 && escape_char(c)[0] == c && c != '\\' && c
            != '"',
{
    if must_escape(c) {
        assert forall|k: int| 0 <= k < escape_char(c).len() implies escape_char(c)[k] != '"' by {
            assert(escape_char(c)[0] == '\\');
        }
    }
}

proof fn lemma_escape_no_quote(s: Seq<char>)
    ensures
        no_quote(escape_seq(s)),
    decreases s.len(),
{
    if s.len() > 0 {
        lemma_escape_char_shape(s[0]);
        lemma_escape_no_quote(s.skip(1));
        assert forall|k: int| 0 <= k < escape_seq(s).len() implies escape_seq(s)[k] != '"' by {
            if k < escape_char(s[0]).len() {
                assert(escape_seq(s)[k] == escape_char(s[0])[k]);
            } else {
                assert(escape_seq(s)[k] == escape_seq(s.skip(1))[k - escape_char(s[0]).len()]);
            }
        }
    }
}

proof fn lemma_escape_len(s: Seq<char>)
    ensures
        escape_seq(s).len() >= s.len(),
    decreases s.len(),
{
    if s.len() > 0 {
        lemma_escape_char_shape(s[0]);
        lemma_escape_len(s.skip(1));
    }
}

proof fn lemma_hex_digit_injective(a: int, b: int)
    requires
        0 <= a < 16,
        0 <= b < 16,
        hex_digit(a) == hex_digit(b),
    ensures
        a == b,
{
}

proof fn lemma_char_from_nibbles(c1: char, c2: char)
    requires
        must_escape(c1),
        must_escape(c2),
        (c1 as u32) / 16 == (c2 as u32) / 16,
        (c1 as u32) % 16 == (c2 as u32) % 16,
    ensures
        c1 == c2,
{
    assert(c1 as u32 == c2 as u32);
    vstd::utf8::char_u32_cast(c1, c1 as u32);
    vstd::utf8::char_u32_cast(c2, c2 as u32);
}

/// Two encoded streams that agree must start with the same unit.
proof fn lemma_unit_align(c1: char, c2: char, x1: Seq<char>, x2: Seq<char>)
    requires
        escape_char(c1) + x1 == escape_char(c2) + x2,
    ensures
        c1 == c2,
        x1 == x2,
{
    lemma_escape_char_shape(c1);
    lemma_escape_char_shape(c2);
    let l = escape_char(c1) + x1;
    if must_escape(c1) && must_escape(c2) {
        assert(l[4] == hex_digit(((c1 as u32) / 16) as int));
        assert(l[4] == hex_digit(((c2 as u32) / 16) as int));
        assert(l[5] == hex_digit(((c1 as u32) % 16) as int));
        assert(l[5] == hex_digit(((c2 as u32) % 16) as int));
        assert((c1 as u32) < 0x5d && (c2 as u32) < 0x5d);
        lemma_hex_digit_injective(((c1 as u32) / 16) as int, ((c2 as u32) / 16) as int);
        lemma_hex_digit_injective(((c1 as u32) % 16) as int, ((c2 as u32) % 16) as int);
        lemma_char_from_nibbles(c1, c2);
        assert((escape_char(c1) + x1).len() == 6 + x1.len());
        assert((escape_char(c2) + x2).len() == 6 + x2.len());
        assert(x1.len() == x2.len());
        assert forall|i: int| 0 <= i < x1.len() implies x1[i] == x2[i] by {
            assert((escape_char(c1) + x1)[6 + i] == x1[i]);
            assert((escape_char(c2) + x2)[6 + i] == x2[i]);
        }
        assert(x1 =~= x2);
    } else if !must_escape(c1) && !must_escape(c2) {
        assert(l[0] == c1);
        assert(l[0] == c2);
        assert((escape_char(c1) + x1).len() == 1 + x1.len());
        assert((escape_char(c2) + x2).len() == 1 + x2.len());
        assert(x1.len() == x2.len());
        assert forall|i: int| 0 <= i < x1.len() implies x1[i] == x2[i] by {
            assert((escape_char(c1) + x1)[1 + i] == x1[i]);
            assert((escape_char(c2) + x2)[1 + i] == x2[i]);
        }
        assert(x1 =~= x2);
    } else if must_escape(c1) {
        assert(l[0] == '\\');
        assert(l[0] == c2);
        assert(false);
    } else {
        assert(l[0] == c1);
        assert(l[0] == '\\');
        assert(false);
    }
}

/// Encoding is injective: the encoded form determines the text it encodes.
proof fn lemma_escape_injective(s1: Seq<char>, s2: Seq<char>)
    requires
        escape_seq(s1) == escape_seq(s2),
    ensures
        s1 == s2,
    decreases s1.len(),
{
    if s1.len() == 0 && s2.len() == 0 {
        assert(s1 =~= s2);
    } else if s1.len() == 0 {
        lemma_escape_len(s2);
        assert(false);
    } else if s2.len() == 0 {
        lemma_escape_len(s1);
        assert(false);
    } else {
        lemma_unit_align(s1[0], s2[0], escape_seq(s1.skip(1)), escape_seq(s2.skip(1)));
        lemma_escape_injective(s1.skip(1), s2.skip(1));
        assert forall|i: int| 0 <= i < s1.len() implies s1[i] == s2[i] by {
            if i > 0 {
                assert(s1.skip(1)[i - 1] == s1[i]);
                assert(s2.skip(1)[i - 1] == s2[i]);
            }
        }
        assert(s1 =~= s2);
    }
}

/// A remainder of an encoded stream past a fully decoded prefix starts with a
/// whole unit of the rest of the text being encoded.
proof fn lemma_escape_align(t: Seq<char>, p: Seq<char>, v: Seq<char>)
    requires
        escape_seq(t) == escape_seq(p) + v,
        v.len() > 0,
    ensures
        t.len() > p.len(),
        t.take(p.len() as int) == p,
        v == escape_char(t[p.len() as int]) + escape_seq(t.skip(p.len() as int + 1)),
    decreases p.len(),
{
    if p.len() == 0 {
        assert(escape_seq(p) + v =~= v);
        assert(t.len() > 0);
        assert(t.take(0) =~= p);
        assert(t.skip(1) =~= t.skip(p.len() as int + 1));
    } else {
        lemma_escape_len(p);
        assert(escape_seq(t).len() > 0);
        assert(t.len() > 0);
        assert(escape_char(p[0]) + (escape_seq(p.skip(1)) + v) =~= (escape_char(p[0]) + escape_seq(
            p.skip(1),
        )) + v);
        lemma_unit_align(t[0], p[0], escape_seq(t.skip(1)), escape_seq(p.skip(1)) + v);
        lemma_escape_align(t.skip(1), p.skip(1), v);
        assert forall|i: int| 0 <= i < p.len() implies t.take(p.len() as int)[i] == p[i] by {
            if i > 0 {
                assert(t.skip(1).take(p.len() as int - 1)[i - 1] == p.skip(1)[i - 1]);
                assert(t.skip(1)[i - 1] == t[i]);
                assert(p.skip(1)[i - 1] == p[i]);
            }
        }
        assert(t.take(p.len() as int) =~= p);
        assert(t.skip(1)[p.len() - 1] == t[p.len() as int]);
        assert(t.skip(1).skip(p.len() as int - 1 + 1) =~= t.skip(p.len() as int + 1));
    }
}

proof fn lemma_no_quote_range(s: Seq<char>, a: int, b: int)
    requires
        0 <= a <= b <= s.len(),
        forall|k: int| a <= k < b ==> s[k] != '"',
    ensures
        no_quote(s.subrange(a, b)),
{
    assert forall|k: int| 0 <= k < b - a implies s.subrange(a, b)[k] != '"' by {
        assert(s.subrange(a, b)[k] == s[a + k]);
    }
}

proof fn lemma_no_quote_index(s: Seq<char>, a: int, b: int, j: int)
    requires
        0 <= a <= b <= s.len(),
        no_quote(s.subrange(a, b)),
        a <= j < b,
    ensures
        s[j] != '"',
{
    assert(s.subrange(a, b)[j - a] == s[j]);
}

/// There is only one first quote at or past a position.
proof fn lemma_first_quote_unique(s: Seq<char>, start: int, j1: int, j2: int)
    requires
        0 <= start,
        start <= j1 < s.len(),
        start <= j2 < s.len(),
        s[j1] == '"',
        s[j2] == '"',
        no_quote(s.subrange(start, j1)),
        no_quote(s.subrange(start, j2)),
    ensures
        j1 == j2,
{
    if j1 < j2 {
        lemma_no_quote_index(s, start, j2, j1);
    }
    if j2 < j1 {
        lemma_no_quote_index(s, start, j1, j2);
    }
}

/// Whether the text of `lit` stands in `s` at position `pos`.
fn has_prefix_at(s: &str, pos: usize, lit: &str) -> (r: bool)
    requires
        pos <= s@.len(),
    ensures
        r <==> (pos + lit@.len() <= s@.len() && s@.subrange(
            pos as int,
            pos as int + lit@.len() as int,
        ) == lit@),
{
    let slen = s.unicode_len();
    let llen = lit.unicode_len();
    if slen - pos < llen {
        return false;
    }
    let mut i: usize = 0;
    while i < llen
        invariant
            i <= llen,
            llen == lit@.len(),
            slen == s@.len(),
            pos + llen <= slen,
            forall|k: int| 0 <= k < i ==> s@[pos + k] == lit@[k],
        decreases llen - i,
    {
        if s.get_char(pos + i) != lit.get_char(i) {
            proof {
                if s@.subrange(pos as int, pos as int + lit@.len() as int) == lit@ {
                    assert(s@.subrange(pos as int, pos as int + lit@.len() as int)[i as int]
                        == s@[pos + i]);
                    assert(false);
                }
            }
            return false;
        }
        i = i + 1;
    }
    proof {
        assert forall|k: int| 0 <= k < lit@.len() implies s@.subrange(
            pos as int,
            pos as int + lit@.len() as int,
        )[k] == lit@[k] by {
            assert(s@.subrange(pos as int, pos as int + lit@.len() as int)[k] == s@[pos + k]);
        }
        assert(s@.subrange(pos as int, pos as int + lit@.len() as int) =~= lit@);
    }
    true
}

/// The position of the first quote at or past `start`, if any.
fn find_quote(s: &str, start: usize) -> (r: Option<usize>)
    requires
        start <= s@.len(),
    ensures
        match r {
            Some(j) => start <= j < s@.len() && s@[j as int] == '"' && no_quote(
                s@.subrange(start as int, j as int),
            ),
            None => no_quote(s@.subrange(start as int, s@.len() as int)),
        },
{
    let slen = s.unicode_len();
    let mut i: usize = start;
    while i < slen
        invariant
            start <= i <= slen,
            slen == s@.len(),
            forall|k: int| start <= k < i ==> s@[k] != '"',
        decreases slen - i,
    {
        if s.get_char(i) == '"' {
            proof {
                lemma_no_quote_range(s@, start as int, i as int);
            }
            return Some(i);
        }
        i = i + 1;
    }
    proof {
        lemma_no_quote_range(s@, start as int, slen as int);
    }
    None
}

/// The value of a lowercase hexadecimal digit, if it is one.
fn hex_val(c: char) -> (r: Option<u32>)
    ensures
        match r {
            Some(v) => v < 16 && hex_digit(v as int) == c,
            None => forall|v: int| 0 <= v < 16 ==> hex_digit(v) != c,
        },
{
    if c == '0' {
        Some(0)
    } else if c == '1' {
        Some(1)
    } else if c == '2' {
        Some(2)
    } else if c == '3' {
        Some(3)
    } else if c == '4' {
        Some(4)
    } else if c == '5' {
        Some(5)
    } else if c == '6' {
        Some(6)
    } else if c == '7' {
        Some(7)
    } else if c == '8' {
        Some(8)
    } else if c == '9' {
        Some(9)
    } else if c == 'a' {
        Some(10)
    } else if c == 'b' {
        Some(11)
    } else if c == 'c' {
        Some(12)
    } else if c == 'd' {
        Some(13)
    } else if c == 'e' {
        Some(14)
    } else if c == 'f' {
        Some(15)
    } else {
        None
    }
}

proof fn lemma_escape_singleton(c: char)
    ensures
        escape_seq(seq![c]) == escape_char(c),
{
    let u = seq![c];
    assert(u.skip(1) =~= Seq::<char>::empty());
    assert(escape_seq(Seq::<char>::empty()) == Seq::<char>::empty());
    assert(escape_seq(u) == escape_char(u[0]) + escape_seq(u.skip(1)));
    assert(escape_char(c) + Seq::<char>::empty() =~= escape_char(c));
}

/// Decodes the region `[start, end)` of `s`, which holds no quote, as a JSON
/// string body in the canonical encoding; strict, so that decoding succeeds
/// exactly on the image of the encoder.
fn unescape(s: &str, start: usize, end: usize) -> (r: Option<String>)
    requires
        start <= end <= s@.len(),
        no_quote(s@.subrange(start as int, end as int)),
    ensures
        match r {
            Some(t) => escape_seq(t@) == s@.subrange(start as int, end as int),
            None => forall|t: Seq<char>| escape_seq(t) != s@.subrange(start as int, end as int),
        },
{
    let ghost content = s@.subrange(start as int, end as int);
    let mut acc = String::new();
    let mut i: usize = start;
    while i < end
        invariant
            start <= i <= end <= s@.len(),
            content == s@.subrange(start as int, end as int),
            no_quote(content),
            escape_seq(acc@) == s@.subrange(start as int, i as int),
        decreases end - i,
    {
        let ghost pre = s@.subrange(start as int, i as int);
        let ghost rest = s@.subrange(i as int, end as int);
        proof {
            assert(rest.len() > 0);
            assert forall|k: int| 0 <= k < rest.len() implies rest[k] == s@[i + k] by {}
            assert(content =~= pre + rest);
        }
        let c = s.get_char(i);
        assert(c == rest[0]);
        if c == '\\' {
            let ok: bool = if end - i < 6 {
                false
            } else if s.get_char(i + 1) != 'u' {
                false
            } else if s.get_char(i + 2) != '0' {
                false
            } else if s.get_char(i + 3) != '0' {
                false
            } else {
                true
            };
            if !ok {
                proof {
                    lemma_unescape_fail(s@, start as int, i as int, end as int, acc@);
                }
                return None;
            }
            let h1 = hex_val(s.get_char(i + 4));
            let h2 = hex_val(s.get_char(i + 5));
            match (h1, h2) {
                (Some(v1), Some(v2)) => {
                    let code: u32 = v1 * 16 + v2;
                    let d: char = (code as u8) as char;
                    if code < 0x20 || d == '"' || d == '\\' {
                        proof {
                            assert(d as u32 == code);
                            assert(must_escape(d));
                            assert((d as u32) / 16 == v1 && (d as u32) % 16 == v2);
                            lemma_escape_append(acc@, seq![d]);
                            lemma_escape_singleton(d);
                            assert(escape_char(d) =~= rest.take(6));
                            assert(acc@.push(d) =~= acc@ + seq![d]);
                            assert(pre + rest.take(6) =~= s@.subrange(start as int, i as int + 6));
                        }
                        push_char(&mut acc, d);
                        i = i + 6;
                    } else {
                        proof {
                            assert forall|d2: char|
                                !(must_escape(d2) && rest[4] == hex_digit(
                                    ((d2 as u32) / 16) as int,
                                ) && rest[5] == hex_digit(((d2 as u32) % 16) as int)) by {
                                if must_escape(d2) && rest[4] == hex_digit(
                                    ((d2 as u32) / 16) as int,
                                ) && rest[5] == hex_digit(((d2 as u32) % 16) as int) {
                                    lemma_hex_digit_injective(
                                        ((d2 as u32) / 16) as int,
                                        v1 as int,
                                    );
                                    lemma_hex_digit_injective(
                                        ((d2 as u32) % 16) as int,
                                        v2 as int,
                                    );
                                    assert(d2 as u32 == code);
                                    vstd::utf8::char_u32_cast(d2, code);
                                    vstd::utf8::char_u32_cast(d, code);
                                    assert(d2 == d);
                                    assert(false);
                                }
                            }
                            lemma_unescape_fail(s@, start as int, i as int, end as int, acc@);
                        }
                        return None;
                    }
                },
                _ => {
                    proof {
                        assert forall|d2: char|
                            !(must_escape(d2) && rest[4] == hex_digit(((d2 as u32) / 16) as int)
                                && rest[5] == hex_digit(((d2 as u32) % 16) as int)) by {
                            if must_escape(d2) {
                                assert((((d2 as u32) / 16) as int) < 16);
                                assert((((d2 as u32) % 16) as int) < 16);
                            }
                        }
                        lemma_unescape_fail(s@, start as int, i as int, end as int, acc@);
                    }
                    return None;
                },
            }
        } else {
            let control = (c as u32) < 0x20;
            if control {
                proof {
                    lemma_unescape_fail(s@, start as int, i as int, end as int, acc@);
                }
                return None;
            }
            proof {
                lemma_no_quote_index(s@, start as int, end as int, i as int);
                assert(!must_escape(c));
                lemma_escape_append(acc@, seq![c]);
                lemma_escape_singleton(c);
                assert(escape_char(c) =~= rest.take(1));
                assert(acc@.push(c) =~= acc@ + seq![c]);
                assert(pre + rest.take(1) =~= s@.subrange(start as int, i as int + 1));
            }
            push_char(&mut acc, c);
            i = i + 1;
        }
    }
    proof {
        assert(s@.subrange(start as int, i as int) =~= content);
    }
    Some(acc)
}

/// At a failing position, the region cannot be the encoding of any text.
proof fn lemma_unescape_fail(s: Seq<char>, start: int, i: int, end: int, acc: Seq<char>)
    requires
        0 <= start <= i < end <= s.len(),
        escape_seq(acc) == s.subrange(start, i),
        ({
            let rest = s.subrange(i, end);
            !(rest[0] != '\\' && !must_escape(rest[0])) && !(rest.len() >= 6 && rest[0] == '\\'
                && rest[1] == 'u' && rest[2] == '0' && rest[3] == '0' && exists|d: char|
                must_escape(d) && rest[4] == hex_digit(((d as u32) / 16) as int) && rest[5]
                    == hex_digit(((d as u32) % 16) as int))
        }),
    ensures
        forall|t: Seq<char>| escape_seq(t) != s.subrange(start, end),
{
    let rest = s.subrange(i, end);
    let content = s.subrange(start, end);
    assert(content =~= s.subrange(start, i) + rest);
    assert(rest.len() > 0);
    assert forall|t: Seq<char>| escape_seq(t) != content by {
        if escape_seq(t) == content {
            lemma_escape_align(t, acc, rest);
            let d = t[acc.len() as int];
            lemma_escape_char_shape(d);
            if must_escape(d) {
                assert(rest[0] == '\\');
                assert(rest.len() >= 6);
                assert(rest[1] == 'u' && rest[2] == '0' && rest[3] == '0');
                assert(rest[4] == hex_digit(((d as u32) / 16) as int));
                assert(rest[5] == hex_digit(((d as u32) % 16) as int));
                assert(false);
            } else {
                assert(rest[0] == d);
                assert(false);
            }
        }
    }
}

/// Parses one encoded string body running up to a quote, with the literal
/// `sep` (whose first character is that quote) following it; returns the
/// decoded text and the position just past `sep`.
fn parse_field(s: &str, start: usize, sep: &str) -> (r: Option<(String, usize)>)
    requires
        start <= s@.len(),
    ensures
        match r {
            Some(p) => {
                &&& start + sep@.len() <= p.1 <= s@.len()
                &&& start <= p.1 - sep@.len() < s@.len()
                &&& s@[p.1 - sep@.len()] == '"'
                &&& no_quote(s@.subrange(start as int, p.1 - sep@.len()))
                &&& escape_seq(p.0@) == s@.subrange(start as int, p.1 - sep@.len())
                &&& s@.subrange(p.1 - sep@.len(), p.1 as int) == sep@
            },
            None => forall|j: int, t: Seq<char>|
                !(start <= j < s@.len() && j + sep@.len() <= s@.len() && s@[j] == '"' && no_quote(
                    s@.subrange(start as int, j),
                ) && escape_seq(t) == s@.subrange(start as int, j) && s@.subrange(
                    j,
                    j + sep@.len(),
                ) == sep@),
        },
{
    match find_quote(s, start) {
        None => {
            proof {
                assert forall|j: int, t: Seq<char>|
                    !(start <= j < s@.len() && j + sep@.len() <= s@.len() && s@[j] == '"'
                        && no_quote(s@.subrange(start as int, j)) && escape_seq(t) == s@.subrange(
                        start as int,
                        j,
                    ) && s@.subrange(j, j + sep@.len()) == sep@) by {
                    if start <= j < s@.len() && s@[j] == '"' {
                        lemma_no_quote_index(s@, start as int, s@.len() as int, j);
                    }
                }
            }
            None
        },
        Some(j1) => {
            match unescape(s, start, j1) {
                None => {
                    proof {
                        assert forall|j: int, t: Seq<char>|
                            !(start <= j < s@.len() && j + sep@.len() <= s@.len() && s@[j] == '"'
                                && no_quote(s@.subrange(start as int, j)) && escape_seq(t)
                                == s@.subrange(start as int, j) && s@.subrange(j, j + sep@.len())
                                == sep@) by {
                            if start <= j < s@.len() && s@[j] == '"' && no_quote(
                                s@.subrange(start as int, j),
                            ) && escape_seq(t) == s@.subrange(start as int, j) {
                                lemma_first_quote_unique(s@, start as int, j, j1 as int);
                            }
                        }
                    }
                    None
                },
                Some(t) => {
                    if has_prefix_at(s, j1, sep) {
                        let slen = s.unicode_len();
                        let next = j1 + sep.unicode_len();
                        Some((t, next))
                    } else {
                        proof {
                            assert forall|j: int, t2: Seq<char>|
                                !(start <= j < s@.len() && j + sep@.len() <= s@.len() && s@[j]
                                    == '"' && no_quote(s@.subrange(start as int, j)) && escape_seq(
                                    t2,
                                ) == s@.subrange(start as int, j) && s@.subrange(j, j + sep@.len())
                                    == sep@) by {
                                if start <= j < s@.len() && s@[j] == '"' && no_quote(
                                    s@.subrange(start as int, j),
                                ) && s@.subrange(j, j + sep@.len()) == sep@ && j + sep@.len()
                                    <= s@.len() {
                                    lemma_first_quote_unique(s@, start as int, j, j1 as int);
                                }
                            }
                        }
                        None
                    }
                },
            }
        },
    }
}

/// Where each piece of the canonical JSON object stands: lengths, the fixed
/// literals, the three encoded fields, and the tail for the optional text.
proof fn lemma_json_parts(a: Seq<char>, b: Seq<char>, c: Seq<char>, d: Option<Seq<char>>)
    ensures
        ({
            let ea = escape_seq(a);
            let eb = escape_seq(b);
            let ec = escape_seq(c);
            let dj = details_text_json(d);
            let j = json_of(a, b, c, d);
            let qa = 10 + ea.len() as int;
            let qb = 25 + ea.len() as int + eb.len() as int;
            let qc = 38 + ea.len() as int + eb.len() as int + ec.len() as int;
            let pd = 54 + ea.len() as int + eb.len() as int + ec.len() as int;
            &&& j.len() == 55 + ea.len() + eb.len() + ec.len() + dj.len()
            &&& j.subrange(0, 10) == "{\"error\":\""@
            &&& j.subrange(10, qa as int) == ea
            &&& j[qa as int] == '"'
            &&& j.subrange(qa as int, qa + 15) == "\",\"errorText\":\""@
            &&& j.subrange(qa + 15, qb as int) == eb
            &&& j[qb as int] == '"'
            &&& j.subrange(qb as int, qb + 13) == "\",\"details\":\""@
            &&& j.subrange(qb + 13, qc as int) == ec
            &&& j[qc as int] == '"'
            &&& j.subrange(qc as int, qc + 16) == "\",\"detailsText\":"@
            &&& match d {
                Option::None => j.len() == pd + 5 && j.subrange(pd as int, pd + 5) == "null}"@,
                Option::Some(t) => ({
                    let et = escape_seq(t);
                    &&& j.len() == pd + 3 + et.len()
                    &&& j[pd as int] == '"'
                    &&& j.subrange(pd + 1, pd + 1 + et.len() as int) == et
                    &&& j[pd + 1 + et.len() as int] == '"'
                    &&& j.subrange(pd + 1 + et.len() as int, pd + 3 + et.len() as int) == "\"}"@
                }),
            }
        }),
{
    reveal_strlit("{\"error\":\"");
    reveal_strlit("\",\"errorText\":\"");
    reveal_strlit("\",\"details\":\"");
    reveal_strlit("\",\"detailsText\":");
    reveal_strlit("null");
    reveal_strlit("null}");
    reveal_strlit("\"}");
    reveal_strlit("}");
    let l1 = "{\"error\":\""@;
    let l2 = "\",\"errorText\":\""@;
    let l3 = "\",\"details\":\""@;
    let l4 = "\",\"detailsText\":"@;
    let l5 = "}"@;
    assert(l1.len() == 10);
    assert(l2.len() == 15);
    assert(l3.len() == 13);
    assert(l4.len() == 16);
    assert(l5.len() == 1);
    let ea = escape_seq(a);
    let eb = escape_seq(b);
    let ec = escape_seq(c);
    let dj = details_text_json(d);
    let j = json_of(a, b, c, d);
    let w1 = l1 + ea;
    let w2 = w1 + l2;
    let w3 = w2 + eb;
    let w4 = w3 + l3;
    let w5 = w4 + ec;
    let w6 = w5 + l4;
    let w7 = w6 + dj;
    assert(j == w7 + l5);
    assert(w1.len() == 10 + ea.len());
    assert(w2.len() == 25 + ea.len());
    assert(w3.len() == 25 + ea.len() + eb.len());
    assert(w4.len() == 38 + ea.len() + eb.len());
    assert(w5.len() == 38 + ea.len() + eb.len() + ec.len());
    assert(w6.len() == 54 + ea.len() + eb.len() + ec.len());
    assert(w7.len() == 54 + ea.len() + eb.len() + ec.len() + dj.len());
    match d {
        Option::None => {
            assert(dj == "null"@);
            assert(dj.len() == 4);
        },
        Option::Some(t) => {
            assert(dj == seq!['"'] + escape_seq(t) + seq!['"']);
            assert(dj.len() == escape_seq(t).len() + 2);
        },
    }
    assert(j.subrange(0, 10) =~= l1);
    assert(j.subrange(10, w1.len() as int) =~= ea);
    assert(j[w1.len() as int] == l2[0]);
    assert(j.subrange(w1.len() as int, w2.len() as int) =~= l2);
    assert(j.subrange(w2.len() as int, w3.len() as int) =~= eb);
    assert(j[w3.len() as int] == l3[0]);
    assert(j.subrange(w3.len() as int, w4.len() as int) =~= l3);
    assert(j.subrange(w4.len() as int, w5.len() as int) =~= ec);
    assert(j[w5.len() as int] == l4[0]);
    assert(j.subrange(w5.len() as int, w6.len() as int) =~= l4);
    match d {
        Option::None => {
            assert(j.subrange(w6.len() as int, w6.len() as int + 5) =~= "null}"@);
        },
        Option::Some(t) => {
            let et = escape_seq(t);
            assert(j[w6.len() as int] == '"');
            assert(j.subrange(w6.len() as int + 1, w6.len() as int + 1 + et.len() as int) =~= et);
            assert(j[w6.len() as int + 1 + et.len() as int] == '"');
            assert(j.subrange(
                w6.len() as int + 1 + et.len() as int,
                w6.len() as int + 3 + et.len() as int,
            ) =~= "\"}"@);
        },
    }
}

/// A parsed first field of a canonical rendering is its `error` piece.
proof fn lemma_align1(
    s: Seq<char>,
    a: Seq<char>,
    b: Seq<char>,
    c: Seq<char>,
    d: Option<Seq<char>>,
    t1: Seq<char>,
    pos1: int,
)
    requires
        s == json_of(a, b, c, d),
        10 <= pos1 - 15 < s.len(),
        s[pos1 - 15] == '"',
        no_quote(s.subrange(10, pos1 - 15)),
        escape_seq(t1) == s.subrange(10, pos1 - 15),
    ensures
        t1 == a,
        pos1 == 25 + escape_seq(a).len(),
{
    lemma_json_parts(a, b, c, d);
    lemma_escape_no_quote(a);
    let qa = 10 + escape_seq(a).len() as int;
    lemma_first_quote_unique(s, 10, pos1 - 15, qa);
    lemma_escape_injective(t1, a);
}

/// A parsed second field of a canonical rendering is its `errorText` piece.
proof fn lemma_align2(
    s: Seq<char>,
    a: Seq<char>,
    b: Seq<char>,
    c: Seq<char>,
    d: Option<Seq<char>>,
    t1: Seq<char>,
    pos1: int,
    t2: Seq<char>,
    pos2: int,
)
    requires
        s == json_of(a, b, c, d),
        10 <= pos1 - 15 < s.len(),
        s[pos1 - 15] == '"',
        no_quote(s.subrange(10, pos1 - 15)),
        escape_seq(t1) == s.subrange(10, pos1 - 15),
        pos1 <= pos2 - 13 < s.len(),
        s[pos2 - 13] == '"',
        no_quote(s.subrange(pos1, pos2 - 13)),
        escape_seq(t2) == s.subrange(pos1, pos2 - 13),
    ensures
        t1 == a,
        t2 == b,
        pos1 == 25 + escape_seq(a).len(),
        pos2 == 38 + escape_seq(a).len() + escape_seq(b).len(),
{
    lemma_align1(s, a, b, c, d, t1, pos1);
    lemma_json_parts(a, b, c, d);
    lemma_escape_no_quote(b);
    let qb = 25 + escape_seq(a).len() as int + escape_seq(b).len() as int;
    lemma_first_quote_unique(s, pos1, pos2 - 13, qb);
    lemma_escape_injective(t2, b);
}

/// A parsed third field of a canonical rendering is its `details` piece.
proof fn lemma_align3(
    s: Seq<char>,
    a: Seq<char>,
    b: Seq<char>,
    c: Seq<char>,
    d: Option<Seq<char>>,
    t1: Seq<char>,
    pos1: int,
    t2: Seq<char>,
    pos2: int,
    t3: Seq<char>,
    pos3: int,
)
    requires
        s == json_of(a, b, c, d),
        10 <= pos1 - 15 < s.len(),
        s[pos1 - 15] == '"',
        no_quote(s.subrange(10, pos1 - 15)),
        escape_seq(t1) == s.subrange(10, pos1 - 15),
        pos1 <= pos2 - 13 < s.len(),
        s[pos2 - 13] == '"',
        no_quote(s.subrange(pos1, pos2 - 13)),
        escape_seq(t2) == s.subrange(pos1, pos2 - 13),
        pos2 <= pos3 - 16 < s.len(),
        s[pos3 - 16] == '"',
        no_quote(s.subrange(pos2, pos3 - 16)),
        escape_seq(t3) == s.subrange(pos2, pos3 - 16),
    ensures
        t1 == a,
        t2 == b,
        t3 == c,
        pos1 == 25 + escape_seq(a).len(),
        pos2 == 38 + escape_seq(a).len() + escape_seq(b).len(),
        pos3 == 54 + escape_seq(a).len() + escape_seq(b).len() + escape_seq(c).len(),
{
    lemma_align2(s, a, b, c, d, t1, pos1, t2, pos2);
    lemma_json_parts(a, b, c, d);
    lemma_escape_no_quote(c);
    let qc = 38 + escape_seq(a).len() as int + escape_seq(b).len() as int + escape_seq(
        c,
    ).len() as int;
    lemma_first_quote_unique(s, pos2, pos3 - 16, qc);
    lemma_escape_injective(t3, c);
}

/// A fully parsed rendering with a `null` tail is the canonical rendering of
/// exactly the parsed fields.
proof fn lemma_from_json_none_tail(
    s: Seq<char>,
    t1: Seq<char>,
    pos1: int,
    t2: Seq<char>,
    pos2: int,
    t3: Seq<char>,
    pos3: int,
)
    requires
        s.subrange(0, 10) == "{\"error\":\""@,
        10 <= pos1 - 15 < s.len(),
        s[pos1 - 15] == '"',
        no_quote(s.subrange(10, pos1 - 15)),
        escape_seq(t1) == s.subrange(10, pos1 - 15),
        s.subrange(pos1 - 15, pos1) == "\",\"errorText\":\""@,
        pos1 <= pos2 - 13 < s.len(),
        s[pos2 - 13] == '"',
        no_quote(s.subrange(pos1, pos2 - 13)),
        escape_seq(t2) == s.subrange(pos1, pos2 - 13),
        s.subrange(pos2 - 13, pos2) == "\",\"details\":\""@,
        pos2 <= pos3 - 16 < s.len(),
        s[pos3 - 16] == '"',
        no_quote(s.subrange(pos2, pos3 - 16)),
        escape_seq(t3) == s.subrange(pos2, pos3 - 16),
        s.subrange(pos3 - 16, pos3) == "\",\"detailsText\":"@,
        pos3 + 5 <= s.len(),
        s.subrange(pos3, pos3 + 5) == "null}"@,
        s.len() == pos3 + 5,
    ensures
        s == json_of(t1, t2, t3, Option::None),
        forall|a: Seq<char>, b: Seq<char>, c: Seq<char>, d: Option<Seq<char>>|
            s == json_of(a, b, c, d) ==> a == t1 && b == t2 && c == t3 && d is None,
{
    reveal_strlit("{\"error\":\"");
    reveal_strlit("\",\"errorText\":\"");
    reveal_strlit("\",\"details\":\"");
    reveal_strlit("\",\"detailsText\":");
    reveal_strlit("null}");
    let j = json_of(t1, t2, t3, Option::<Seq<char>>::None);
    lemma_json_parts(t1, t2, t3, Option::None);
    assert(s.subrange(0, 10) == j.subrange(0, 10));
    assert(s.subrange(10, pos1 - 15) == j.subrange(10, pos1 - 15));
    assert(s.subrange(pos1 - 15, pos1) == j.subrange(pos1 - 15, pos1));
    assert(s.subrange(pos1, pos2 - 13) == j.subrange(pos1, pos2 - 13));
    assert(s.subrange(pos2 - 13, pos2) == j.subrange(pos2 - 13, pos2));
    assert(s.subrange(pos2, pos3 - 16) == j.subrange(pos2, pos3 - 16));
    assert(s.subrange(pos3 - 16, pos3) == j.subrange(pos3 - 16, pos3));
    assert(s.subrange(pos3, pos3 + 5) == j.subrange(pos3, pos3 + 5));
    assert forall|k: int| 0 <= k < s.len() implies s[k] == j[k] by {
        if k < 10 {
            lemma_eq_regions(s, j, 0, 10, k);
        } else if k < pos1 - 15 {
            lemma_eq_regions(s, j, 10, pos1 - 15, k);
        } else if k < pos1 {
            lemma_eq_regions(s, j, pos1 - 15, pos1, k);
        } else if k < pos2 - 13 {
            lemma_eq_regions(s, j, pos1, pos2 - 13, k);
        } else if k < pos2 {
            lemma_eq_regions(s, j, pos2 - 13, pos2, k);
        } else if k < pos3 - 16 {
            lemma_eq_regions(s, j, pos2, pos3 - 16, k);
        } else if k < pos3 {
            lemma_eq_regions(s, j, pos3 - 16, pos3, k);
        } else {
            lemma_eq_regions(s, j, pos3, pos3 + 5, k);
        }
    }
    assert(s =~= j);
    assert forall|a: Seq<char>, b: Seq<char>, c: Seq<char>, d: Option<Seq<char>>|
        s == json_of(a, b, c, d) implies a == t1 && b == t2 && c == t3 && d is None by {
        lemma_align3(s, a, b, c, d, t1, pos1, t2, pos2, t3, pos3);
        lemma_json_parts(a, b, c, d);
        match d {
            Option::None => {},
            Option::Some(t) => {
                assert(s.subrange(pos3, pos3 + 5)[0] == s[pos3]);
                assert(false);
            },
        }
    }
}

/// A fully parsed rendering with a quoted tail is the canonical rendering of
/// exactly the parsed fields.
proof fn lemma_from_json_some_tail(
    s: Seq<char>,
    t1: Seq<char>,
    pos1: int,
    t2: Seq<char>,
    pos2: int,
    t3: Seq<char>,
    pos3: int,
    t4: Seq<char>,
    pos4: int,
)
    requires
        s.subrange(0, 10) == "{\"error\":\""@,
        10 <= pos1 - 15 < s.len(),
        s[pos1 - 15] == '"',
        no_quote(s.subrange(10, pos1 - 15)),
        escape_seq(t1) == s.subrange(10, pos1 - 15),
        s.subrange(pos1 - 15, pos1) == "\",\"errorText\":\""@,
        pos1 <= pos2 - 13 < s.len(),
        s[pos2 - 13] == '"',
        no_quote(s.subrange(pos1, pos2 - 13)),
        escape_seq(t2) == s.subrange(pos1, pos2 - 13),
        s.subrange(pos2 - 13, pos2) == "\",\"details\":\""@,
        pos2 <= pos3 - 16 < s.len(),
        s[pos3 - 16] == '"',
        no_quote(s.subrange(pos2, pos3 - 16)),
        escape_seq(t3) == s.subrange(pos2, pos3 - 16),
        s.subrange(pos3 - 16, pos3) == "\",\"detailsText\":"@,
        pos3 < s.len(),
        s[pos3] == '"',
        pos3 + 1 <= pos4 - 2 < s.len(),
        s[pos4 - 2] == '"',
        no_quote(s.subrange(pos3 + 1, pos4 - 2)),
        escape_seq(t4) == s.subrange(pos3 + 1, pos4 - 2),
        s.subrange(pos4 - 2, pos4) == "\"}"@,
        s.len() == pos4,
    ensures
        s == json_of(t1, t2, t3, Option::Some(t4)),
        forall|a: Seq<char>, b: Seq<char>, c: Seq<char>, d: Option<Seq<char>>|
            s == json_of(a, b, c, d) ==> a == t1 && b == t2 && c == t3 && d == Option::Some(t4),
{
    reveal_strlit("{\"error\":\"");
    reveal_strlit("\",\"errorText\":\"");
    reveal_strlit("\",\"details\":\"");
    reveal_strlit("\",\"detailsText\":");
    reveal_strlit("null}");
    reveal_strlit("\"}");
    let j = json_of(t1, t2, t3, Option::Some(t4));
    lemma_json_parts(t1, t2, t3, Option::Some(t4));
    assert(s.subrange(0, 10) == j.subrange(0, 10));
    assert(s.subrange(10, pos1 - 15) == j.subrange(10, pos1 - 15));
    assert(s.subrange(pos1 - 15, pos1) == j.subrange(pos1 - 15, pos1));
    assert(s.subrange(pos1, pos2 - 13) == j.subrange(pos1, pos2 - 13));
    assert(s.subrange(pos2 - 13, pos2) == j.subrange(pos2 - 13, pos2));
    assert(s.subrange(pos2, pos3 - 16) == j.subrange(pos2, pos3 - 16));
    assert(s.subrange(pos3 - 16, pos3) == j.subrange(pos3 - 16, pos3));
    assert(s.subrange(pos3 + 1, pos4 - 2) == j.subrange(pos3 + 1, pos4 - 2));
    assert(s.subrange(pos4 - 2, pos4) == j.subrange(pos4 - 2, pos4));
    assert forall|k: int| 0 <= k < s.len() implies s[k] == j[k] by {
        if k < 10 {
            lemma_eq_regions(s, j, 0, 10, k);
        } else if k < pos1 - 15 {
            lemma_eq_regions(s, j, 10, pos1 - 15, k);
        } else if k < pos1 {
            lemma_eq_regions(s, j, pos1 - 15, pos1, k);
        } else if k < pos2 - 13 {
            lemma_eq_regions(s, j, pos1, pos2 - 13, k);
        } else if k < pos2 {
            lemma_eq_regions(s, j, pos2 - 13, pos2, k);
        } else if k < pos3 - 16 {
            lemma_eq_regions(s, j, pos2, pos3 - 16, k);
        } else if k < pos3 {
            lemma_eq_regions(s, j, pos3 - 16, pos3, k);
        } else if k == pos3 {
        } else if k < pos4 - 2 {
            lemma_eq_regions(s, j, pos3 + 1, pos4 - 2, k);
        } else {
            lemma_eq_regions(s, j, pos4 - 2, pos4, k);
        }
    }
    assert(s =~= j);
    assert forall|a: Seq<char>, b: Seq<char>, c: Seq<char>, d: Option<Seq<char>>|
        s == json_of(a, b, c, d) implies a == t1 && b == t2 && c == t3 && d == Option::Some(
        t4,
    ) by {
        lemma_align3(s, a, b, c, d, t1, pos1, t2, pos2, t3, pos3);
        lemma_json_parts(a, b, c, d);
        match d {
            Option::None => {
                assert(s.subrange(pos3, pos3 + 5)[0] == s[pos3]);
                assert(false);
            },
            Option::Some(t) => {
                lemma_escape_no_quote(t);
                lemma_first_quote_unique(
                    s,
                    pos3 + 1,
                    pos4 - 2,
                    pos3 + 1 + escape_seq(t).len() as int,
                );
                lemma_escape_injective(t4, t);
            },
        }
    }
}

impl I18nError {
    /// Parses the canonical JSON form produced by `as_json` back into a
    /// record: it succeeds exactly on such canonical renderings and then
    /// recovers every field, so that, with `as_json`, serialization is a
    /// round trip.
    pub fn from_json(s: &str) -> (r: Option<I18nError>)
        ensures
            (match r {
                Some(e) => s@ == json_of(
                    e.error@,
                    e.error_text@,
                    e.details@,
                    opt_text(e.details_text),
                ),
                None => forall|a: Seq<char>, b: Seq<char>, c: Seq<char>, d: Option<Seq<char>>|
                    s@ != json_of(a, b, c, d),
            }),
            forall|a: Seq<char>, b: Seq<char>, c: Seq<char>, d: Option<Seq<char>>|
                s@ == json_of(a, b, c, d) ==> (match r {
                    Some(e) => e.error@ == a && e.error_text@ == b && e.details@ == c && opt_text(
                        e.details_text,
                    ) == d,
                    None => false,
                }),
    {
        let slen = s.unicode_len();
        if !has_prefix_at(s, 0, "{\"error\":\"") {
            proof {
                reveal_strlit("{\"error\":\"");
                assert forall|a: Seq<char>, b: Seq<char>, c: Seq<char>, d: Option<Seq<char>>|
                    s@ != json_of(a, b, c, d) by {
                    if s@ == json_of(a, b, c, d) {
                        lemma_json_parts(a, b, c, d);
                        assert(false);
                    }
                }
            }
            return None;
        }
        proof {
            reveal_strlit("{\"error\":\"");
        }
        let r1 = match parse_field(s, 10, "\",\"errorText\":\"") {
            Some(p) => p,
            None => {
                proof {
                    reveal_strlit("\",\"errorText\":\"");
                    assert forall|a: Seq<char>, b: Seq<char>, c: Seq<char>, d: Option<Seq<char>>|
                        s@ != json_of(a, b, c, d) by {
                        if s@ == json_of(a, b, c, d) {
                            lemma_json_parts(a, b, c, d);
                            lemma_escape_no_quote(a);
                            let qa = 10 + escape_seq(a).len() as int;
                            assert(!(10 <= qa < s@.len() && qa + 15 <= s@.len() && s@[qa] == '"'
                                && no_quote(s@.subrange(10, qa)) && escape_seq(a) == s@.subrange(
                                10,
                                qa,
                            ) && s@.subrange(qa, qa + 15) == "\",\"errorText\":\""@));
                            assert(false);
                        }
                    }
                }
                return None;
            },
        };
        let t1 = r1.0;
        let pos1 = r1.1;
        let r2 = match parse_field(s, pos1, "\",\"details\":\"") {
            Some(p) => p,
            None => {
                proof {
                    reveal_strlit("\",\"errorText\":\"");
                    reveal_strlit("\",\"details\":\"");
                    assert forall|a: Seq<char>, b: Seq<char>, c: Seq<char>, d: Option<Seq<char>>|
                        s@ != json_of(a, b, c, d) by {
                        if s@ == json_of(a, b, c, d) {
                            lemma_align1(s@, a, b, c, d, t1@, pos1 as int);
                            lemma_json_parts(a, b, c, d);
                            lemma_escape_no_quote(b);
                            let qb = 25 + escape_seq(a).len() as int + escape_seq(b).len() as int;
                            assert(!(pos1 <= qb < s@.len() && qb + 13 <= s@.len() && s@[qb] == '"'
                                && no_quote(s@.subrange(pos1 as int, qb)) && escape_seq(b)
                                == s@.subrange(pos1 as int, qb) && s@.subrange(qb, qb + 13)
                                == "\",\"details\":\""@));
                            assert(false);
                        }
                    }
                }
                return None;
            },
        };
        let t2 = r2.0;
        let pos2 = r2.1;
        let r3 = match parse_field(s, pos2, "\",\"detailsText\":") {
            Some(p) => p,
            None => {
                proof {
                    reveal_strlit("\",\"errorText\":\"");
                    reveal_strlit("\",\"details\":\"");
                    reveal_strlit("\",\"detailsText\":");
                    assert forall|a: Seq<char>, b: Seq<char>, c: Seq<char>, d: Option<Seq<char>>|
                        s@ != json_of(a, b, c, d) by {
                        if s@ == json_of(a, b, c, d) {
                            lemma_align2(s@, a, b, c, d, t1@, pos1 as int, t2@, pos2 as int);
                            lemma_json_parts(a, b, c, d);
                            lemma_escape_no_quote(c);
                            let qc = 38 + escape_seq(a).len() as int + escape_seq(b).len() as int
                                + escape_seq(c).len() as int;
                            assert(!(pos2 <= qc < s@.len() && qc + 16 <= s@.len() && s@[qc] == '"'
                                && no_quote(s@.subrange(pos2 as int, qc)) && escape_seq(c)
                                == s@.subrange(pos2 as int, qc) && s@.subrange(qc, qc + 16)
                                == "\",\"detailsText\":"@));
                            assert(false);
                        }
                    }
                }
                return None;
            },
        };
        let t3 = r3.0;
        let pos3 = r3.1;
        proof {
            reveal_strlit("\",\"errorText\":\"");
            reveal_strlit("\",\"details\":\"");
            reveal_strlit("\",\"detailsText\":");
            reveal_strlit("{\"error\":\"");
            reveal_strlit("null}");
            reveal_strlit("\"}");
        }
        if has_prefix_at(s, pos3, "null}") {
            if pos3 + 5 == slen {
                let e = I18nError {
                    error: t1,
                    error_text: t2,
                    details: t3,
                    details_text: None,
                };
                proof {
                    lemma_from_json_none_tail(
                        s@,
                        t1@,
                        pos1 as int,
                        t2@,
                        pos2 as int,
                        t3@,
                        pos3 as int,
                    );
                }
                return Some(e);
            } else {
                proof {
                    assert forall|a: Seq<char>, b: Seq<char>, c: Seq<char>, d: Option<Seq<char>>|
                        s@ != json_of(a, b, c, d) by {
                        if s@ == json_of(a, b, c, d) {
                            lemma_align3(
                                s@,
                                a,
                                b,
                                c,
                                d,
                                t1@,
                                pos1 as int,
                                t2@,
                                pos2 as int,
                                t3@,
                                pos3 as int,
                            );
                            lemma_json_parts(a, b, c, d);
                            match d {
                                Option::None => {
                                    assert(false);
                                },
                                Option::Some(t) => {
                                    assert(s@.subrange(pos3 as int, pos3 + 5)[0] == s@[pos3 as int]);
                                    assert(false);
                                },
                            }
                        }
                    }
                }
                return None;
            }
        }
        if pos3 < slen && s.get_char(pos3) == '"' {
            match parse_field(s, pos3 + 1, "\"}") {
                Some(p) => {
                    let t4 = p.0;
                    let pos4 = p.1;
                    if pos4 == slen {
                        let e = I18nError {
                            error: t1,
                            error_text: t2,
                            details: t3,
                            details_text: Some(t4),
                        };
                        proof {
                            lemma_from_json_some_tail(
                                s@,
                                t1@,
                                pos1 as int,
                                t2@,
                                pos2 as int,
                                t3@,
                                pos3 as int,
                                t4@,
                                pos4 as int,
                            );
                        }
                        return Some(e);
                    } else {
                        proof {
                            assert forall|
                                a: Seq<char>,
                                b: Seq<char>,
                                c: Seq<char>,
                                d: Option<Seq<char>>,
                            |
                                s@ != json_of(a, b, c, d) by {
                                if s@ == json_of(a, b, c, d) {
                                    lemma_align3(
                                        s@,
                                        a,
                                        b,
                                        c,
                                        d,
                                        t1@,
                                        pos1 as int,
                                        t2@,
                                        pos2 as int,
                                        t3@,
                                        pos3 as int,
                                    );
                                    lemma_json_parts(a, b, c, d);
                                    match d {
                                        Option::None => {
                                            assert(s@.subrange(pos3 as int, pos3 + 5)[0]
                                                == s@[pos3 as int]);
                                            assert(false);
                                        },
                                        Option::Some(t) => {
                                            lemma_escape_no_quote(t);
                                            lemma_first_quote_unique(
                                                s@,
                                                pos3 as int + 1,
                                                pos4 - 2,
                                                pos3 as int + 1 + escape_seq(t).len() as int,
                                            );
                                            assert(false);
                                        },
                                    }
                                }
                            }
                        }
                        return None;
                    }
                },
                None => {
                    proof {
                        assert forall|
                            a: Seq<char>,
                            b: Seq<char>,
                            c: Seq<char>,
                            d: Option<Seq<char>>,
                        |
                            s@ != json_of(a, b, c, d) by {
                            if s@ == json_of(a, b, c, d) {
                                lemma_align3(
                                    s@,
                                    a,
                                    b,
                                    c,
                                    d,
                                    t1@,
                                    pos1 as int,
                                    t2@,
                                    pos2 as int,
                                    t3@,
                                    pos3 as int,
                                );
                                lemma_json_parts(a, b, c, d);
                                match d {
                                    Option::None => {
                                        assert(s@.subrange(pos3 as int, pos3 + 5)[0]
                                            == s@[pos3 as int]);
                                        assert(false);
                                    },
                                    Option::Some(t) => {
                                        lemma_escape_no_quote(t);
                                        let qd = pos3 as int + 1 + escape_seq(t).len() as int;
                                        assert(!(pos3 + 1 <= qd < s@.len() && qd + 2 <= s@.len()
                                            && s@[qd] == '"' && no_quote(
                                            s@.subrange(pos3 as int + 1, qd),
                                        ) && escape_seq(t) == s@.subrange(pos3 as int + 1, qd)
                                            && s@.subrange(qd, qd + 2) == "\"}"@));
                                        assert(false);
                                    },
                                }
                            }
                        }
                    }
                    return None;
                },
            }
        } else {
            proof {
                assert forall|a: Seq<char>, b: Seq<char>, c: Seq<char>, d: Option<Seq<char>>|
                    s@ != json_of(a, b, c, d) by {
                    if s@ == json_of(a, b, c, d) {
                        lemma_align3(
                            s@,
                            a,
                            b,
                            c,
                            d,
                            t1@,
                            pos1 as int,
                            t2@,
                            pos2 as int,
                            t3@,
                            pos3 as int,
                        );
                        lemma_json_parts(a, b, c, d);
                        match d {
                            Option::None => {
                                assert(false);
                            },
                            Option::Some(t) => {
                                assert(false);
                            },
                        }
                    }
                }
            }
            return None;
        }
    }
}

/// Sequences that agree on a common subrange agree at each of its positions.
proof fn lemma_eq_regions(x: Seq<char>, y: Seq<char>, r0: int, r1: int, k: int)
    requires
        0 <= r0 <= k < r1 <= x.len(),
        r1 <= y.len(),
        x.subrange(r0, r1) == y.subrange(r0, r1),
    ensures
        x[k] == y[k],
{
    assert(x.subrange(r0, r1)[k - r0] == x[k]);
    assert(y.subrange(r0, r1)[k - r0] == y[k]);
}

} // verus!
