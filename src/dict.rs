use vstd::prelude::*;
use vstd::string::StringExecFns;
use vstd::utf8::{
    decode_utf8, encode_utf8, encode_utf8_decode_utf8, encode_utf8_valid_utf8, is_char_boundary,
    is_char_boundary_iff_is_leading_byte, valid_utf8,
};
use vstd::string::StringSliceAdditionalSpecFns;
use crate::abbr::{lex_lt, key_lt};

verus! {

/// A spelling as it stands in a dictionary line.
#[derive(Debug)]
pub struct Spell(pub String);

impl Spell {
    /// The spelling's bytes.
    pub open spec fn bytes(&self) -> Seq<u8> {
        vstd::utf8::encode_utf8(self.0@)
    }

    /// A copy of the spelling.
    pub fn duplicate(&self) -> (r: Spell)
        ensures
            r == *self,
    {
        Spell(self.0.clone())
    }
}

/// A dictionary entry: its text, spelling and weight, and its position in
/// the file it was read from.
#[derive(Debug)]
pub struct Vocab {
    pub text: String,
    pub spell: Spell,
    pub weight: u32,
    pub ord: usize,
}

impl Vocab {
    /// A copy of the entry.
    pub fn duplicate(&self) -> (r: Vocab)
        ensures
            r == *self,
    {
        Vocab { text: self.text.clone(), spell: self.spell.duplicate(), weight: self.weight, ord: self.ord }
    }
}


/// Relies on `str::chars`: collecting them gives the string's characters.
#[verifier::external_body]
fn chars_of(s: &str) -> (r: Vec<char>)
    ensures
        r@ == s@,
{
    s.chars().collect()
}

/// Relies on `String`'s `FromIterator<char>`: the string holds the characters
/// in order.
#[verifier::external_body]
fn string_of(c: &Vec<char>) -> (r: String)
    ensures
        r@ == c@,
{
    c.iter().collect()
}

/// The position of the first `c` in `s`, or the length of `s`.
pub open spec fn first_of(s: Seq<char>, c: char) -> nat
    decreases s.len(),
{
    if s.len() == 0 {
        0
    } else if s[0] == c {
        0
    } else {
        1 + first_of(s.drop_first(), c)
    }
}

/// The pieces of `s` between the separators `c`, as `str::split` gives them:
/// always at least one.
pub open spec fn split_on(s: Seq<char>, c: char) -> Seq<Seq<char>>
    decreases s.len(),
{
    let j = first_of(s, c);
    if j >= s.len() {
        seq![s]
    } else {
        seq![s.take(j as int)] + split_on(s.skip((j + 1) as int), c)
    }
}

proof fn lemma_first_of_bound(s: Seq<char>, c: char)
    ensures
        first_of(s, c) <= s.len(),
        first_of(s, c) < s.len() ==> s[first_of(s, c) as int] == c,
        forall|i: int| 0 <= i < first_of(s, c) ==> s[i] != c,
    decreases s.len(),
{
    if s.len() > 0 && s[0] != c {
        lemma_first_of_bound(s.drop_first(), c);
        assert forall|i: int| 0 <= i < first_of(s, c) implies s[i] != c by {
            if i > 0 {
                assert(s[i] == s.drop_first()[i - 1]);
            }
        }
    }
}

proof fn lemma_first_of_concat(a: Seq<char>, b: Seq<char>, c: char)
    requires
        forall|i: int| 0 <= i < a.len() ==> a[i] != c,
    ensures
        first_of(a + b, c) == a.len() + first_of(b, c),
    decreases a.len(),
{
    if a.len() > 0 {
        lemma_first_of_concat(a.drop_first(), b, c);
        assert((a + b).drop_first() == a.drop_first() + b);
    } else {
        assert(a + b == b);
    }
}

/// The views of a sequence of character vectors.
pub open spec fn views(p: Seq<Vec<char>>) -> Seq<Seq<char>> {
    Seq::new(p.len(), |i: int| p[i]@)
}

/// Splits `s` at each `c`, as `split_on` says.
pub fn split_chars(s: &Vec<char>, c: char) -> (r: Vec<Vec<char>>)
    ensures
        views(r@) == split_on(s@, c),
{
    let mut pieces: Vec<Vec<char>> = Vec::new();
    let mut cur: Vec<char> = Vec::new();
    let mut i: usize = 0;
    assert(s@.skip(0) == s@);
    while i < s.len()
        invariant
            i <= s@.len(),
            forall|x: int| 0 <= x < cur@.len() ==> cur@[x] != c,
            split_on(s@, c) == views(pieces@) + split_on(cur@ + s@.skip(i as int), c),
        decreases s@.len() - i,
    {
        if s[i] == c {
            proof {
                let rest = s@.skip(i as int);
                lemma_first_of_concat(cur@, rest, c);
                assert(first_of(rest, c) == 0);
                let all = cur@ + rest;
                assert(all.take(cur@.len() as int) == cur@);
                assert(all.skip((cur@.len() + 1) as int) == s@.skip(i + 1));
                assert(views(pieces@.push(cur)) == views(pieces@).push(cur@));
            }
            pieces.push(cur);
            cur = Vec::new();
            proof {
                assert(cur@ + s@.skip(i + 1) == s@.skip(i + 1));
            }
        } else {
            proof {
                assert(cur@ + s@.skip(i as int) == cur@.push(s@[i as int]) + s@.skip(i + 1));
            }
            cur.push(s[i]);
        }
        i += 1;
    }
    proof {
        lemma_first_of_concat(cur@, Seq::empty(), c);
        assert(cur@ + s@.skip(i as int) == cur@);
        assert(views(pieces@.push(cur)) == views(pieces@).push(cur@));
    }
    pieces.push(cur);
    pieces
}

/// The value of a run of decimal digits.
pub open spec fn digits_value(s: Seq<char>) -> nat
    decreases s.len(),
{
    if s.len() == 0 {
        0
    } else {
        (digits_value(s.drop_last()) * 10 + (s.last() as u32) - ('0' as u32)) as nat
    }
}

pub open spec fn is_digit(c: char) -> bool {
    '0' <= c && c <= '9'
}

/// `s` without one leading `+`.
pub open spec fn unsigned_part(s: Seq<char>) -> Seq<char> {
    if s.len() > 0 && s[0] == '+' {
        s.drop_first()
    } else {
        s
    }
}

pub open spec fn all_digits(d: Seq<char>) -> bool {
    forall|i: int| 0 <= i < d.len() ==> is_digit(#[trigger] d[i])
}

/// An unsigned 32-bit integer written in decimal, as `str::parse::<u32>`
/// reads it: an optional `+`, then one or more digits, with a value that fits.
pub open spec fn parse_u32_spec(s: Seq<char>) -> Option<u32> {
    let d = unsigned_part(s);
    if d.len() > 0 && all_digits(d) && digits_value(d) <= u32::MAX {
        Some(digits_value(d) as u32)
    } else {
        None
    }
}

proof fn lemma_digits_grow(d: Seq<char>, i: int, j: int)
    requires
        0 <= i <= j <= d.len(),
        forall|x: int| 0 <= x < d.len() ==> is_digit(#[trigger] d[x]),
    ensures
        digits_value(d.take(i)) <= digits_value(d.take(j)),
    decreases j - i,
{
    if i < j {
        lemma_digits_grow(d, i, j - 1);
        assert(d.take(j).drop_last() == d.take(j - 1));
        assert(is_digit(d[j - 1]));
    }
}

/// Reads an unsigned 32-bit integer written in decimal.
pub fn parse_u32(s: &Vec<char>) -> (r: Option<u32>)
    ensures
        r == parse_u32_spec(s@),
{
    let start: usize = if s.len() > 0 && s[0] == '+' { 1 } else { 0 };
    let ghost d = unsigned_part(s@);
    if start == s.len() {
        return None;
    }
    let mut acc: u32 = 0;
    let mut i: usize = start;
    assert(d.take(0) =~= Seq::<char>::empty());
    while i < s.len()
        invariant
            start <= i <= s@.len(),
            start < s@.len(),
            d == s@.skip(start as int),
            d == unsigned_part(s@),
            forall|x: int| 0 <= x < i - start ==> is_digit(#[trigger] d[x]),
            acc as nat == digits_value(d.take(i - start)),
        decreases s@.len() - i,
    {
        let ch = s[i];
        if !('0' <= ch && ch <= '9') {
            proof {
                assert(d[i - start] == s@[i as int]);
                assert(!is_digit(d[i - start]));
                assert(!all_digits(d));
                assert(parse_u32_spec(s@) is None);
            }
            return None;
        }
        let dv: u32 = (ch as u32) - ('0' as u32);
        proof {
            let t = d.take(i - start + 1);
            assert(t.drop_last() == d.take(i - start));
            assert(d[i - start] == s@[i as int]);
            assert(t.last() == ch);
            assert(digits_value(t) == acc * 10 + dv);
        }
        if acc > (u32::MAX - dv) / 10 {
            proof {
                assert(digits_value(d.take(i - start + 1)) > u32::MAX) by (nonlinear_arith)
                    requires
                        acc > (u32::MAX - dv) / 10,
                        digits_value(d.take(i - start + 1)) == acc * 10 + dv,
                        dv <= 9,
                ;
                if all_digits(d) {
                    lemma_digits_grow(d, i - start + 1, d.len() as int);
                    assert(d.take(d.len() as int) == d);
                }
                assert(parse_u32_spec(s@) is None);
            }
            return None;
        }
        proof {
            assert(acc * 10 + dv <= u32::MAX) by (nonlinear_arith)
                requires
                    acc <= (u32::MAX - dv) / 10,
                    dv <= 9,
            ;
        }
        acc = acc * 10 + dv;
        i += 1;
    }
    proof {
        assert(d.take(d.len() as int) == d);
    }
    Some(acc)
}


/// `b` holds the bytes `...` at position `p`.
pub open spec fn dots_at(b: Seq<u8>, p: int) -> bool {
    p + 3 <= b.len() && b[p] == 46 && b[p + 1] == 46 && b[p + 2] == 46
}

/// The first byte position from `p` on, and below 1024, at which `...` starts.
pub open spec fn find_dots(b: Seq<u8>, p: int) -> Option<int>
    decreases 1024 - p,
{
    if p < 0 || p >= 1024 || p + 3 > b.len() {
        None
    } else if dots_at(b, p) {
        Some(p)
    } else {
        find_dots(b, p + 1)
    }
}

/// The length in bytes of a dictionary's header: the text up to and
/// including the first `...` that starts among its first 1024 bytes; none
/// without it.
pub open spec fn header_len(b: Seq<u8>) -> int {
    match find_dots(b, 0) {
        Some(p) => p + 3,
        None => 0,
    }
}

/// The text that follows a dictionary's header.
pub open spec fn body_of(s: Seq<char>) -> Seq<char> {
    decode_utf8(encode_utf8(s).skip(header_len(encode_utf8(s))))
}

proof fn lemma_encode_concat(x: Seq<char>, y: Seq<char>)
    ensures
        encode_utf8(x + y) == encode_utf8(x) + encode_utf8(y),
    decreases x.len(),
{
    if x.len() > 0 {
        lemma_encode_concat(x.drop_first(), y);
        assert((x + y).drop_first() == x.drop_first() + y);
        assert((x + y)[0] == x[0]);
    } else {
        assert(x + y == y);
    }
}

/// `l` without one trailing carriage return.
pub open spec fn strip_cr(l: Seq<char>) -> Seq<char> {
    if l.len() > 0 && l.last() == '\r' {
        l.drop_last()
    } else {
        l
    }
}

/// The lines of `s`, as `str::lines` gives them: split at each newline, a
/// carriage return before a newline dropped, and no empty line after a final
/// newline.
pub open spec fn lines_of(s: Seq<char>) -> Seq<Seq<char>> {
    let p = split_on(s, '\n');
    let n = p.len() - 1;
    Seq::new(n as nat, |i: int| strip_cr(p[i])) + if p[n].len() > 0 {
        seq![p[n]]
    } else {
        Seq::empty()
    }
}

/// The text, spelling and weight that a line holds: tab-separated fields,
/// an absent spelling read as empty and an absent or unreadable weight as 0.
/// An empty line and a comment line hold none.
pub open spec fn line_fields(l: Seq<char>) -> Option<(Seq<char>, Seq<char>, u32)> {
    if l.len() == 0 || l[0] == '#' {
        None
    } else {
        let f = split_on(l, '\t');
        Some(
            (
                f[0],
                if f.len() > 1 {
                    f[1]
                } else {
                    Seq::empty()
                },
                if f.len() > 2 {
                    match parse_u32_spec(f[2]) {
                        Some(w) => w,
                        None => 0,
                    }
                } else {
                    0
                },
            ),
        )
    }
}

/// The entries that the lines `ls` hold, in order.
pub open spec fn entries_of(ls: Seq<Seq<char>>) -> Seq<(Seq<char>, Seq<char>, u32)>
    decreases ls.len(),
{
    if ls.len() == 0 {
        Seq::empty()
    } else {
        let r = entries_of(ls.drop_last());
        match line_fields(ls.last()) {
            Some(e) => r.push(e),
            None => r,
        }
    }
}

/// A dictionary: its header, passed through as it is, and its entries in
/// file order.
#[derive(Debug)]
pub struct Dict {
    pub header: String,
    pub vocabs: Vec<Vocab>,
}

/// The entry `v` holds the fields `e` and stands at position `i`.
pub open spec fn holds(v: Vocab, e: (Seq<char>, Seq<char>, u32), i: int) -> bool {
    v.text@ == e.0 && v.spell.0@ == e.1 && v.weight == e.2 && v.ord == i
}

/// `s` has an entry spelled `sp`.
pub open spec fn spelled_in(s: Seq<Vocab>, sp: Seq<char>) -> bool {
    exists|i: int| 0 <= i < s.len() && s[i].spell.0@ == sp
}

/// The entries of `base` whose spelling `patch` does not hold, then those of
/// `patch`.
pub open spec fn patched(base: Seq<Vocab>, patch: Seq<Vocab>) -> Seq<Vocab> {
    base.filter(kept_by(patch)) + patch
}

/// Whether an entry keeps its place against `patch`: its spelling is not
/// among those of `patch`.
pub open spec fn kept_by(patch: Seq<Vocab>) -> spec_fn(Vocab) -> bool {
    |v: Vocab| !spelled_in(patch, v.spell.0@)
}

fn copy_range(s: &Vec<char>, from: usize, to: usize) -> (r: Vec<char>)
    requires
        from <= to <= s@.len(),
    ensures
        r@ == s@.subrange(from as int, to as int),
{
    let mut r: Vec<char> = Vec::new();
    let mut i: usize = from;
    while i < to
        invariant
            from <= i <= to,
            to <= s@.len(),
            r@ == s@.subrange(from as int, i as int),
        decreases to - i,
    {
        r.push(s[i]);
        proof {
            assert(s@.subrange(from as int, i + 1) == s@.subrange(from as int, i as int).push(s@[i as int]));
        }
        i += 1;
    }
    r
}

/// Reads the fields of one line.
pub fn parse_line(l: &Vec<char>) -> (r: Option<(String, String, u32)>)
    ensures
        match r {
            Some(t) => line_fields(l@) == Some((t.0@, t.1@, t.2)),
            None => line_fields(l@) is None,
        },
{
    if l.len() == 0 || l[0] == '#' {
        return None;
    }
    let f = split_chars(l, '\t');
    proof {
        assert(views(f@)[0] == f@[0]@);
    }
    let text = string_of(&f[0]);
    let spell = if f.len() > 1 {
        proof {
            assert(views(f@)[1] == f@[1]@);
        }
        string_of(&f[1])
    } else {
        String::new()
    };
    let weight: u32 = if f.len() > 2 {
        proof {
            assert(views(f@)[2] == f@[2]@);
        }
        match parse_u32(&f[2]) {
            Some(w) => w,
            None => 0,
        }
    } else {
        0
    };
    Some((text, spell, weight))
}

impl Dict {
    /// Reads a dictionary from its text: the header, then one entry for each
    /// line that is neither empty nor a comment, numbered in file order.
    pub fn parse(content: &str) -> (r: Dict)
        ensures
            encode_utf8(r.header@) == encode_utf8(content@).take(header_len(encode_utf8(content@))),
            r.vocabs@.len() == entries_of(lines_of(body_of(content@))).len(),
            forall|i: int|
                0 <= i < r.vocabs@.len() ==> holds(
                    #[trigger] r.vocabs@[i],
                    entries_of(lines_of(body_of(content@)))[i],
                    i,
                ),
    {
        let b = content.as_bytes();
        let ghost bs = encode_utf8(content@);
        let n = b.len();
        let mut p: usize = 0;
        let mut found = false;
        while p < 1024 && p + 3 <= n && !found
            invariant
                n == b@.len(),
                b@ == bs,
                p <= 1024,
                found ==> dots_at(bs, p as int) && find_dots(bs, 0) == Some(p as int),
                !found ==> find_dots(bs, 0) == find_dots(bs, p as int),
            decreases 1024 - p + if found { 0int } else { 1 },
        {
            if b[p] == 46u8 && b[p + 1] == 46u8 && b[p + 2] == 46u8 {
                found = true;
            } else {
                p += 1;
            }
        }
        proof {
            encode_utf8_valid_utf8(content@);
        }
        let (header, body_str): (String, &str) = if found {
            proof {
                is_char_boundary_iff_is_leading_byte(bs, p + 2);
            }
            let (a, rest) = content.split_at(p + 2);
            let ghost rb = rest.spec_bytes();
            proof {
                assert(rb[0] == bs[p + 2]);
                encode_utf8_valid_utf8(rest@);
                reveal_with_fuel(is_char_boundary, 2);
                assert(is_char_boundary(rb, 1));
            }
            let (dot, body) = rest.split_at(1);
            let mut hdr = String::from_str(a);
            hdr.append(dot);
            proof {
                lemma_encode_concat(a@, dot@);
                assert(encode_utf8(hdr@) =~= bs.take(p + 3));
                assert(body.spec_bytes() =~= bs.skip(p + 3));
            }
            (hdr, body)
        } else {
            proof {
                assert(bs.skip(0) == bs);
                assert(encode_utf8(Seq::<char>::empty()) =~= bs.take(0));
            }
            (String::new(), content)
        };
        proof {
            assert(encode_utf8(header@) == bs.take(header_len(bs)));
            assert(body_str.spec_bytes() == bs.skip(header_len(bs)));
            encode_utf8_decode_utf8(body_str@);
            assert(body_str@ == body_of(content@));
        }
        let body = chars_of(body_str);
        let pieces = split_chars(&body, '\n');
        let ghost ls = lines_of(body@);
        let ghost pv = views(pieces@);
        let mut vocabs: Vec<Vocab> = Vec::new();
        let mut i: usize = 0;
        let last = pieces.len() - 1;
        proof {
            assert(ls.take(0) =~= Seq::<Seq<char>>::empty());
        }
        while i < pieces.len()
            invariant
                pv == views(pieces@),
                pv == split_on(body@, '\n'),
                ls == lines_of(body@),
                last == pieces@.len() - 1,
                i <= pieces@.len(),
                ({
                    let done = if i <= last { ls.take(i as int) } else { ls };
                    &&& vocabs@.len() == entries_of(done).len()
                    &&& forall|j: int| 0 <= j < vocabs@.len() ==> holds(#[trigger] vocabs@[j], entries_of(done)[j], j)
                }),
            decreases pieces@.len() - i,
        {
            let mut line = copy_range(&pieces[i], 0, pieces[i].len());
            proof {
                assert(line@ == pv[i as int]) by {
                    assert(pv[i as int] == pieces@[i as int]@);
                }
            }
            if i < last && line.len() > 0 && line[line.len() - 1] == '\r' {
                line.pop();
            }
            let ghost done0 = if i <= last { ls.take(i as int) } else { ls };
            let ghost keep = i < last || line@.len() > 0;
            proof {
                if i < last {
                    assert(line@ == strip_cr(pv[i as int]));
                    assert(ls[i as int] == line@);
                    assert(ls.take(i + 1).drop_last() == ls.take(i as int));
                } else if line@.len() > 0 {
                    assert(ls.len() == last + 1);
                    assert(ls[i as int] == line@);
                    assert(ls.take(i + 1) == ls);
                    assert(ls.take(i + 1).drop_last() == ls.take(i as int));
                } else {
                    assert(ls.len() == last);
                    assert(ls.take(i as int) == ls);
                }
            }
            if i < last || line.len() > 0 {
                match parse_line(&line) {
                    Some((text, spell, weight)) => {
                        let ord = vocabs.len();
                        vocabs.push(Vocab { text, spell: Spell(spell), weight, ord });
                    },
                    None => {},
                }
            }
            i += 1;
        }
        proof {
            assert(last < pieces@.len());
        }
        Dict { header, vocabs }
    }
}


/// The character of a decimal digit.
pub open spec fn digit_char(d: nat) -> char {
    if d == 0 { '0' } else if d == 1 { '1' } else if d == 2 { '2' } else if d == 3 { '3' } else if d == 4 {
        '4'
    } else if d == 5 { '5' } else if d == 6 { '6' } else if d == 7 { '7' } else if d == 8 { '8' } else {
        '9'
    }
}

/// `n` written in decimal, without a sign or leading zeros.
pub open spec fn decimal_spec(n: nat) -> Seq<char>
    decreases n,
{
    if n < 10 {
        seq![digit_char(n)]
    } else {
        decimal_spec(n / 10).push(digit_char(n % 10))
    }
}

fn digit(d: u32) -> (r: char)
    requires
        d < 10,
    ensures
        r == digit_char(d as nat),
{
    if d == 0 { '0' } else if d == 1 { '1' } else if d == 2 { '2' } else if d == 3 { '3' } else if d == 4 {
        '4'
    } else if d == 5 { '5' } else if d == 6 { '6' } else if d == 7 { '7' } else if d == 8 { '8' } else {
        '9'
    }
}

fn push_decimal(n: u32, out: &mut Vec<char>)
    ensures
        final(out)@ == old(out)@ + decimal_spec(n as nat),
    decreases n,
{
    if n >= 10 {
        push_decimal(n / 10, out);
    }
    out.push(digit(n % 10));
    proof {
        if n >= 10 {
            assert(final(out)@ =~= old(out)@ + decimal_spec(n as nat));
        } else {
            assert(final(out)@ =~= old(out)@ + decimal_spec(n as nat));
        }
    }
}

/// `n` written in decimal.
fn decimal(n: u32) -> (r: String)
    ensures
        r@ == decimal_spec(n as nat),
{
    let mut out: Vec<char> = Vec::new();
    push_decimal(n, &mut out);
    assert(out@ =~= decimal_spec(n as nat));
    string_of(&out)
}

/// Relies on `String::from_utf8`: it succeeds exactly on valid UTF-8, and the
/// string then holds those bytes.
#[verifier::external_body]
fn utf8_string(b: Vec<u8>) -> (r: Option<String>)
    ensures
        r is Some <==> valid_utf8(b@),
        r matches Some(s) ==> encode_utf8(s@) == b@,
{
    String::from_utf8(b).ok()
}

/// Reads a code's bytes as text.
pub fn text(bytes: &Vec<u8>) -> (r: String)
    requires
        valid_utf8(bytes@),
    ensures
        encode_utf8(r@) == bytes@,
{
    let mut b: Vec<u8> = Vec::new();
    let mut i: usize = 0;
    while i < bytes.len()
        invariant
            i <= bytes@.len(),
            b@ == bytes@.take(i as int),
        decreases bytes@.len() - i,
    {
        b.push(bytes[i]);
        proof {
            assert(bytes@.take(i + 1) == bytes@.take(i as int).push(bytes@[i as int]));
        }
        i += 1;
    }
    proof {
        assert(bytes@.take(bytes@.len() as int) == bytes@);
    }
    utf8_string(b).unwrap()
}

/// One output line: text, code and, where given, weight, separated by tabs.
pub open spec fn line_text(text: Seq<char>, code: Seq<char>, weight: Option<u32>) -> Seq<char> {
    text + seq!['\t'] + code + match weight {
        Some(w) => seq!['\t'] + decimal_spec(w as nat),
        None => Seq::empty(),
    } + seq!['\n']
}

/// The lines of the entries `s`, each under its own spelling.
pub open spec fn dict_lines(s: Seq<Vocab>, with_weight: bool) -> Seq<char>
    decreases s.len(),
{
    if s.len() == 0 {
        Seq::empty()
    } else {
        dict_lines(s.drop_last(), with_weight) + line_text(
            s.last().text@,
            s.last().spell.0@,
            if with_weight { Some(s.last().weight) } else { None },
        )
    }
}

/// The header template of an output dictionary, with its name and comment.
pub open spec fn header_text(name: Seq<char>, comment: Seq<char>) -> Seq<char> {
    "# Rime dictionary\n# encoding: utf-8\n#\n# "@ + comment + "\n\n---\nname: "@ + name
        + "\nversion: \"1\"\nsort: by_weight\n..."@
}

/// Appends one output line to `out`.
pub(crate) fn push_line(out: &mut String, text: &str, code: &str, weight: Option<u32>)
    ensures
        final(out)@ == old(out)@ + line_text(text@, code@, weight),
{
    out.append(text);
    out.append("\t");
    out.append(code);
    match weight {
        Some(w) => {
            out.append("\t");
            let d = decimal(w);
            out.append(d.as_str());
        },
        None => {},
    }
    out.append("\n");
    proof {
        reveal_strlit("\t");
        reveal_strlit("\n");
        assert(final(out)@ =~= old(out)@ + line_text(text@, code@, weight));
    }
}

impl Dict {
    /// The header of a dictionary named `name`, with `comment` on its
    /// comment line.
    pub fn header(name: &str, comment: &str) -> (r: String)
        ensures
            r@ == header_text(name@, comment@),
    {
        let mut r = String::from_str("# Rime dictionary\n# encoding: utf-8\n#\n# ");
        r.append(comment);
        r.append("\n\n---\nname: ");
        r.append(name);
        r.append("\nversion: \"1\"\nsort: by_weight\n...");
        r
    }

    /// Replaces, for each spelling that `patch` holds, this dictionary's
    /// entries of that spelling by those of `patch`.
    pub fn patch(&mut self, patch: Dict)
        ensures
            final(self).header == old(self).header,
            final(self).vocabs@ == patched(old(self).vocabs@, patch.vocabs@),
    {
        let ghost base = self.vocabs@;
        let ghost pv = patch.vocabs@;
        let mut out: Vec<Vocab> = Vec::new();
        let mut i: usize = 0;
        proof {
            reveal(Seq::filter);
            assert(base.take(0) =~= Seq::<Vocab>::empty());
        }
        while i < self.vocabs.len()
            invariant
                base == self.vocabs@,
                pv == patch.vocabs@,
                i <= base.len(),
                out@ == base.take(i as int).filter(kept_by(pv)),
            decreases base.len() - i,
        {
            let v = &self.vocabs[i];
            let mut found = false;
            let mut j: usize = 0;
            while j < patch.vocabs.len() && !found
                invariant
                    pv == patch.vocabs@,
                    j <= pv.len(),
                    found <==> spelled_in(pv.take(j as int), v.spell.0@),
                decreases pv.len() - j + if found { 0int } else { 1 },
            {
                if patch.vocabs[j].spell.0 == v.spell.0 {
                    found = true;
                    proof {
                        assert(pv.take(j + 1)[j as int] == pv[j as int]);
                    }
                    j += 1;
                } else {
                    proof {
                        if spelled_in(pv.take(j + 1), v.spell.0@) {
                            let t = pv.take(j + 1);
                            let x = choose|x: int| 0 <= x < t.len() && #[trigger] t[x].spell.0@ == v.spell.0@;
                            assert(pv.take(j as int)[x] == pv[x]);
                        }
                    }
                    j += 1;
                }
            }
            proof {
                if found {
                    let t = pv.take(j as int);
                    let x = choose|x: int| 0 <= x < t.len() && #[trigger] t[x].spell.0@ == v.spell.0@;
                    assert(pv[x] == pv.take(j as int)[x]);
                } else {
                    assert(pv.take(j as int) == pv);
                }
                assert(found == spelled_in(pv, v.spell.0@));
                assert(base.take(i + 1).drop_last() == base.take(i as int));
                reveal(Seq::filter);
            }
            if !found {
                out.push(v.duplicate());
            }
            i += 1;
        }
        proof {
            assert(base.take(base.len() as int) == base);
        }
        let mut rest = patch.vocabs;
        out.append(&mut rest);
        self.vocabs = out;
    }

    /// The dictionary as text: its header on a line of its own, then one
    /// line for each entry, with or without its weight. The entries come in
    /// spelling order, and in their own order within one spelling.
    pub fn render(&self, with_weight: bool) -> (r: String)
        ensures
            r@ == self.header@ + seq!['\n'] + dict_lines(sort_by_spell(self.vocabs@), with_weight),
    {
        let vs = sorted_by_spell(&self.vocabs);
        let mut out = String::new();
        out.append(self.header.as_str());
        out.append("\n");
        proof {
            reveal_strlit("\n");
            assert(vs@.take(0) =~= Seq::<Vocab>::empty());
        }
        let mut i: usize = 0;
        while i < vs.len()
            invariant
                i <= vs@.len(),
                out@ == self.header@ + seq!['\n'] + dict_lines(vs@.take(i as int), with_weight),
            decreases vs@.len() - i,
        {
            let v = &vs[i];
            push_line(&mut out, v.text.as_str(), v.spell.0.as_str(), if with_weight { Some(v.weight) } else { None });
            proof {
                assert(vs@.take(i + 1).drop_last() == vs@.take(i as int));
            }
            i += 1;
        }
        proof {
            assert(vs@.take(vs@.len() as int) == vs@);
        }
        out
    }
}


/// `a` comes before `b` in spelling order: fewer bytes first, then byte-wise.
pub open spec fn spell_lt(a: Seq<char>, b: Seq<char>) -> bool {
    encode_utf8(a).len() < encode_utf8(b).len() || (encode_utf8(a).len() == encode_utf8(b).len()
        && lex_lt(encode_utf8(a), encode_utf8(b)))
}

/// `x` placed into `s` after every entry whose spelling does not come after
/// its own.
pub open spec fn insert_by_spell(s: Seq<Vocab>, x: Vocab) -> Seq<Vocab>
    decreases s.len(),
{
    if s.len() == 0 {
        seq![x]
    } else if !spell_lt(x.spell.0@, s[0].spell.0@) {
        seq![s[0]] + insert_by_spell(s.drop_first(), x)
    } else {
        seq![x] + s
    }
}

/// `s` in spelling order; entries of equal spelling keep their order.
pub open spec fn sort_by_spell(s: Seq<Vocab>) -> Seq<Vocab>
    decreases s.len(),
{
    if s.len() == 0 {
        s
    } else {
        insert_by_spell(sort_by_spell(s.drop_last()), s.last())
    }
}

proof fn lemma_insert_by_spell_at(s: Seq<Vocab>, x: Vocab, j: int)
    requires
        0 <= j <= s.len(),
        forall|t: int| 0 <= t < j ==> !spell_lt(x.spell.0@, #[trigger] s[t].spell.0@),
        j < s.len() ==> spell_lt(x.spell.0@, s[j].spell.0@),
    ensures
        insert_by_spell(s, x) == s.insert(j, x),
    decreases s.len(),
{
    if s.len() == 0 {
        assert(s.insert(j, x) =~= seq![x]);
    } else if j == 0 {
        assert(s.insert(0, x) =~= seq![x] + s);
    } else {
        let t = s.drop_first();
        assert forall|u: int| 0 <= u < j - 1 implies !spell_lt(x.spell.0@, #[trigger] t[u].spell.0@) by {
            assert(t[u] == s[u + 1]);
        }
        lemma_insert_by_spell_at(t, x, j - 1);
        assert(s.insert(j, x) =~= seq![s[0]] + t.insert(j - 1, x));
    }
}

/// Whether spelling `a` comes before spelling `b`.
pub fn spell_before(a: &Spell, b: &Spell) -> (r: bool)
    ensures
        r == spell_lt(a.0@, b.0@),
{
    let x = a.0.as_str().as_bytes();
    let y = b.0.as_str().as_bytes();
    if x.len() != y.len() {
        x.len() < y.len()
    } else {
        key_lt(x, y)
    }
}

/// Orders entries by spelling, keeping the order of entries of equal spelling.
pub fn sorted_by_spell(v: &Vec<Vocab>) -> (r: Vec<Vocab>)
    ensures
        r@ == sort_by_spell(v@),
{
    let mut out: Vec<Vocab> = Vec::new();
    let mut i: usize = 0;
    while i < v.len()
        invariant
            i <= v@.len(),
            out@ == sort_by_spell(v@.take(i as int)),
        decreases v@.len() - i,
    {
        let x = v[i].duplicate();
        let mut j: usize = 0;
        while j < out.len() && !spell_before(&x.spell, &out[j].spell)
            invariant
                j <= out@.len(),
                forall|t: int| 0 <= t < j ==> !spell_lt(x.spell.0@, #[trigger] out@[t].spell.0@),
            decreases out@.len() - j,
        {
            j += 1;
        }
        proof {
            lemma_insert_by_spell_at(out@, x, j as int);
            assert(v@.take(i + 1).drop_last() == v@.take(i as int));
        }
        out.insert(j, x);
        i += 1;
    }
    proof {
        assert(v@.take(v@.len() as int) == v@);
    }
    out
}

} // verus!
