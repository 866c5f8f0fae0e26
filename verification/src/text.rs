//! Character-level helpers over `str` and `String`: the models of text that
//! the rest of the library states its contracts with.
use vstd::prelude::*;

verus! {

broadcast use vstd::string::group_string_axioms;

/// The characters of `s`, in order.
pub fn chars_of(s: &str) -> (r: Vec<char>)
    ensures
        r@ == s@,
{
    let mut out: Vec<char> = Vec::new();
    for c in it: s.chars()
        invariant
            it.seq() == s@,
            out@ == it.seq().take(it.index() as int),
    {
        out.push(c);
    }
    out
}

/// `String::push`: appends one character.
#[verifier::external_body]
pub(crate) fn push_char(s: &mut String, c: char)
    ensures
        final(s)@ == old(s)@.push(c),
{
    s.push(c);
}

/// The number of bytes of the UTF-8 encoding of `s` (`str::len`), read off
/// its byte slice, whose length fits a `usize`.
pub(crate) fn utf8_len(s: &str) -> (n: usize)
    ensures
        n == vstd::utf8::encode_utf8(s@).len(),
{
    let bytes = s.as_bytes();
    bytes.len()
}

/// The string made of `chars[lo..hi]`.
pub fn string_from_range(chars: &Vec<char>, lo: usize, hi: usize) -> (r: String)
    requires
        lo <= hi <= chars@.len(),
    ensures
        r@ == chars@.subrange(lo as int, hi as int),
{
    let mut out = String::new();
    let mut i = lo;
    while i < hi
        invariant
            lo <= i <= hi <= chars@.len(),
            out@ == chars@.subrange(lo as int, i as int),
        decreases hi - i,
    {
        push_char(&mut out, chars[i]);
        i = i + 1;
        assert(out@ =~= chars@.subrange(lo as int, i as int));
    }
    out
}

/// The Unicode `White_Space` property, the set of characters that
/// `char::is_whitespace` and `str::trim` treat as white space.
pub open spec fn is_white_space(c: char) -> bool {
    let u = c as u32;
    ||| 0x9 <= u <= 0xD
    ||| u == 0x20
    ||| u == 0x85
    ||| u == 0xA0
    ||| u == 0x1680
    ||| 0x2000 <= u <= 0x200A
    ||| u == 0x2028
    ||| u == 0x2029
    ||| u == 0x202F
    ||| u == 0x205F
    ||| u == 0x3000
}

/// Whether `c` has the Unicode `White_Space` property.
pub fn is_white_space_char(c: char) -> (r: bool)
    ensures
        r == is_white_space(c),
{
    let u = c as u32;
    (0x9 <= u && u <= 0xD) || u == 0x20 || u == 0x85 || u == 0xA0 || u == 0x1680 || (0x2000 <= u
        && u <= 0x200A) || u == 0x2028 || u == 0x2029 || u == 0x202F || u == 0x205F || u == 0x3000
}

/// `s` without its leading white space (what `str::trim_start` gives).
pub open spec fn trim_start(s: Seq<char>) -> Seq<char>
    decreases s.len(),
{
    if s.len() > 0 && is_white_space(s[0]) {
        trim_start(s.drop_first())
    } else {
        s
    }
}

/// Whether every character of `s` is white space (`s.trim()` is empty).
pub open spec fn is_blank(s: Seq<char>) -> bool {
    forall|i: int| 0 <= i < s.len() ==> is_white_space(#[trigger] s[i])
}

/// Whether `s.trim()` is empty.
pub fn is_blank_str(s: &str) -> (r: bool)
    ensures
        r == is_blank(s@),
{
    let cs = chars_of(s);
    let mut i: usize = 0;
    while i < cs.len()
        invariant
            i <= cs@.len(),
            cs@ == s@,
            forall|k: int| 0 <= k < i ==> is_white_space(#[trigger] cs@[k]),
        decreases cs.len() - i,
    {
        if !is_white_space_char(cs[i]) {
            return false;
        }
        i = i + 1;
    }
    true
}

/// Whether `pat` occurs in `chars` at position `start`.
pub fn has_prefix_at(chars: &Vec<char>, start: usize, pat: &Vec<char>) -> (r: bool)
    requires
        start <= chars@.len(),
    ensures
        r == pat@.is_prefix_of(chars@.skip(start as int)),
{
    if pat.len() > chars.len() - start {
        return false;
    }
    let mut k: usize = 0;
    while k < pat.len()
        invariant
            start + pat@.len() <= chars@.len(),
            k <= pat@.len(),
            forall|m: int| 0 <= m < k ==> pat@[m] == chars@[start + m],
        decreases pat.len() - k,
    {
        assert(start + k < chars.len());
        if pat[k] != chars[start + k] {
            assert(chars@.skip(start as int)[k as int] == chars@[start + k]);
            return false;
        }
        k = k + 1;
    }
    assert(pat@ =~= chars@.skip(start as int).take(pat@.len() as int));
    true
}

/// Whether `a` and `b` hold the same text.
pub fn str_eq(a: &str, b: &str) -> (r: bool)
    ensures
        r == (a@ == b@),
{
    let ac = chars_of(a);
    let bc = chars_of(b);
    if ac.len() != bc.len() {
        return false;
    }
    assert(ac@.skip(0) =~= ac@);
    let r = has_prefix_at(&ac, 0, &bc);
    proof {
        if r {
            assert(ac@ =~= bc@);
        }
    }
    r
}

/// Whether `s` begins with `pat` (`str::starts_with`).
pub fn starts_with(s: &str, pat: &str) -> (r: bool)
    ensures
        r == pat@.is_prefix_of(s@),
{
    let cs = chars_of(s);
    let ps = chars_of(pat);
    assert(cs@.skip(0) =~= cs@);
    has_prefix_at(&cs, 0, &ps)
}

/// Whether `s` ends with `pat` (`str::ends_with`).
pub fn ends_with(s: &str, pat: &str) -> (r: bool)
    ensures
        r == pat@.is_suffix_of(s@),
{
    let cs = chars_of(s);
    let ps = chars_of(pat);
    if ps.len() > cs.len() {
        return false;
    }
    let start = cs.len() - ps.len();
    let r = has_prefix_at(&cs, start, &ps);
    assert(cs@.skip(start as int).take(ps@.len() as int) =~= cs@.subrange(
        start as int,
        cs@.len() as int,
    ));
    r
}

/// The ASCII digit for `d < 10`.
pub open spec fn digit_char(d: u8) -> char {
    ((48 + d) as u8) as char
}

/// The decimal numeral of `n`, as `usize`'s `Display` writes it.
pub open spec fn decimal(n: nat) -> Seq<char>
    decreases n,
{
    if n < 10 {
        seq![digit_char(n as u8)]
    } else {
        decimal(n / 10).push(digit_char((n % 10) as u8))
    }
}

/// The number that the decimal digits `s` stand for, read in base 10.
pub open spec fn digits_value(s: Seq<char>) -> int
    decreases s.len(),
{
    if s.len() == 0 {
        0
    } else {
        digits_value(s.drop_last()) * 10 + ((s.last() as int) - 48)
    }
}

/// The numeral written for `n` is its base-10 representation: it is made
/// of the digits `0` to `9`, it reads back as `n`, and it has no leading
/// zero (only `0` itself starts with `0`).
pub proof fn lemma_decimal_is_base_ten(n: nat)
    ensures
        decimal(n).len() > 0,
        forall|i: int| 0 <= i < decimal(n).len() ==> '0' <= #[trigger] decimal(n)[i] <= '9',
        digits_value(decimal(n)) == n,
        decimal(n)[0] == '0' ==> n == 0 && decimal(n).len() == 1,
    decreases n,
{
    if n < 10 {
        let c = digit_char(n as u8);
        assert((c as int) == 48 + n);
        assert(decimal(n) =~= seq![c]);
        assert(seq![c].drop_last() =~= Seq::<char>::empty());
        assert(digits_value(Seq::<char>::empty()) == 0);
        assert(digits_value(seq![c]) == digits_value(seq![c].drop_last()) * 10 + ((c as int) - 48));
    } else {
        lemma_decimal_is_base_ten(n / 10);
        let d = (n % 10) as u8;
        let c = digit_char(d);
        assert((c as int) == 48 + d);
        let s = decimal(n);
        assert(s == decimal(n / 10).push(c));
        assert(s.drop_last() =~= decimal(n / 10));
        assert(n == (n / 10) * 10 + n % 10) by (nonlinear_arith);
        assert(s.last() == c);
        assert(digits_value(s) == digits_value(s.drop_last()) * 10 + ((c as int) - 48));
        assert(d as int == n % 10);
        assert forall|i: int| 0 <= i < s.len() implies '0' <= #[trigger] s[i] <= '9' by {
            if i < s.len() - 1 {
                assert(s[i] == decimal(n / 10)[i]);
            }
        }
        assert(s[0] == decimal(n / 10)[0]);
    }
}

/// Appends the decimal numeral of `n` to `s`.
pub fn push_decimal(s: &mut String, n: usize)
    ensures
        final(s)@ == old(s)@ + decimal(n as nat),
        digits_value(final(s)@.skip(old(s)@.len() as int)) == n,
        final(s)@[old(s)@.len() as int] == '0' ==> n == 0,
    decreases n,
{
    if n >= 10 {
        push_decimal(s, n / 10);
    }
    let d: u8 = (n % 10) as u8;
    let b: u8 = 48 + d;
    push_char(s, b as char);
    assert(decimal(n as nat) =~= if n < 10 {
        seq![digit_char(d)]
    } else {
        decimal((n / 10) as nat).push(digit_char(d))
    });
    proof {
        lemma_decimal_is_base_ten(n as nat);
        assert(s@.skip(old(s)@.len() as int) =~= decimal(n as nat));
    }
}

/// The lowercase hexadecimal digit for `d < 16`.
pub open spec fn hex_digit(d: u8) -> char {
    if d < 10 {
        ((48 + d) as u8) as char
    } else {
        ((87 + d) as u8) as char
    }
}

/// Two lowercase hexadecimal digits per byte, most significant first
/// (what `{:x}` writes for a digest).
pub open spec fn hex_lower(bytes: Seq<u8>) -> Seq<char>
    decreases bytes.len(),
{
    if bytes.len() == 0 {
        seq![]
    } else {
        hex_lower(bytes.drop_last()) + seq![
            hex_digit(bytes.last() / 16),
            hex_digit(bytes.last() % 16),
        ]
    }
}

/// The hexadecimal digit character of `d < 16`.
fn hex_digit_char(d: u8) -> (c: char)
    requires
        d < 16,
    ensures
        c == hex_digit(d),
{
    if d < 10 {
        let b: u8 = 48 + d;
        b as char
    } else {
        let b: u8 = 87 + d;
        b as char
    }
}

/// The lowercase hexadecimal encoding of `bytes`.
pub fn to_hex_lower(bytes: &[u8]) -> (r: String)
    ensures
        r@ == hex_lower(bytes@),
        r@.len() == 2 * bytes@.len(),
{
    let mut out = String::new();
    let mut i: usize = 0;
    proof {
        lemma_hex_lower_len(bytes@);
    }
    while i < bytes.len()
        invariant
            i <= bytes@.len(),
            out@ == hex_lower(bytes@.take(i as int)),
        decreases bytes.len() - i,
    {
        let b = bytes[i];
        push_char(&mut out, hex_digit_char(b / 16));
        push_char(&mut out, hex_digit_char(b % 16));
        assert(bytes@.take(i + 1).drop_last() =~= bytes@.take(i as int));
        i = i + 1;
        assert(out@ =~= hex_lower(bytes@.take(i as int)));
    }
    assert(bytes@.take(bytes@.len() as int) =~= bytes@);
    out
}

/// The hexadecimal encoding has two characters per byte.
pub proof fn lemma_hex_lower_len(bytes: Seq<u8>)
    ensures
        hex_lower(bytes).len() == 2 * bytes.len(),
    decreases bytes.len(),
{
    if bytes.len() > 0 {
        lemma_hex_lower_len(bytes.drop_last());
    }
}

/// The offset of the first `'\n'` in `s`, or `s.len()` if there is none.
pub open spec fn newline_offset(s: Seq<char>) -> nat
    decreases s.len(),
{
    if s.len() == 0 || s[0] == '\n' {
        0
    } else {
        1 + newline_offset(s.drop_first())
    }
}

/// A line without one trailing `'\r'`.
pub open spec fn strip_cr(line: Seq<char>) -> Seq<char> {
    if line.len() > 0 && line.last() == '\r' {
        line.drop_last()
    } else {
        line
    }
}

/// The lines of `s`, as `str::lines` yields them: split after each `'\n'`,
/// the terminating `"\n"` or `"\r\n"` removed, no empty line after a final
/// `'\n'`.
pub open spec fn lines_of(s: Seq<char>) -> Seq<Seq<char>>
    decreases s.len(),
{
    if s.len() == 0 {
        seq![]
    } else {
        let k = newline_offset(s);
        if k < s.len() {
            seq![strip_cr(s.take(k as int))] + lines_of(s.skip(k + 1 as int))
        } else {
            seq![s]
        }
    }
}

proof fn lemma_newline_offset(s: Seq<char>, k: int)
    requires
        0 <= k <= s.len(),
        forall|j: int| 0 <= j < k ==> s[j] != '\n',
        k == s.len() || s[k] == '\n',
    ensures
        newline_offset(s) == k,
    decreases k,
{
    if k > 0 {
        let t = s.drop_first();
        assert forall|j: int| 0 <= j < k - 1 implies t[j] != '\n' by {
            assert(t[j] == s[j + 1]);
        }
        lemma_newline_offset(t, k - 1);
    }
}

/// The views of a sequence of strings.
pub open spec fn string_views(v: Seq<String>) -> Seq<Seq<char>> {
    v.map_values(|l: String| l@)
}

/// The lines of `text` (`str::lines`).
pub fn split_lines(text: &str) -> (r: Vec<String>)
    ensures
        string_views(r@) == lines_of(text@),
{
    let cs = chars_of(text);
    let n = cs.len();
    let mut out: Vec<String> = Vec::new();
    let mut pos: usize = 0;
    assert(cs@.skip(0) =~= cs@);
    while pos < n
        invariant
            n == cs@.len(),
            cs@ == text@,
            pos <= n,
            string_views(out@) + lines_of(cs@.skip(pos as int)) == lines_of(cs@),
        decreases n - pos,
    {
        let ghost rest = cs@.skip(pos as int);
        let mut k = pos;
        while k < n && cs[k] != '\n'
            invariant
                pos <= k <= n,
                n == cs@.len(),
                forall|j: int| pos <= j < k ==> cs@[j] != '\n',
            decreases n - k,
        {
            k = k + 1;
        }
        proof {
            assert forall|j: int| 0 <= j < k - pos implies rest[j] != '\n' by {
                assert(rest[j] == cs@[pos + j]);
            }
            lemma_newline_offset(rest, k - pos);
        }
        let ghost old_out = out@;
        if k < n {
            let mut e = k;
            if e > pos && cs[e - 1] == '\r' {
                e = e - 1;
            }
            let line = string_from_range(&cs, pos, e);
            proof {
                assert(rest.take(k - pos) =~= cs@.subrange(pos as int, k as int));
                assert(strip_cr(rest.take(k - pos)) =~= cs@.subrange(pos as int, e as int));
                assert(rest.skip(k - pos + 1) =~= cs@.skip(k + 1));
            }
            out.push(line);
            pos = k + 1;
        } else {
            let line = string_from_range(&cs, pos, n);
            proof {
                assert(rest =~= cs@.subrange(pos as int, n as int));
                assert(cs@.skip(n as int) =~= Seq::<char>::empty());
            }
            out.push(line);
            pos = n;
        }
        assert(string_views(out@) =~= string_views(old_out).push(out@.last()@));
        assert(string_views(out@) + lines_of(cs@.skip(pos as int)) =~= string_views(old_out)
            + lines_of(rest));
    }
    assert(cs@.skip(n as int) =~= Seq::<char>::empty());
    assert(string_views(out@) + lines_of(cs@.skip(n as int)) =~= string_views(out@));
    out
}

/// `s` with every non-overlapping occurrence of the non-empty `pat`,
/// scanning from the left, replaced by `rep` (`str::replace`).
pub open spec fn replace_all(s: Seq<char>, pat: Seq<char>, rep: Seq<char>) -> Seq<char>
    decreases s.len(),
{
    if pat.len() == 0 || s.len() == 0 {
        s
    } else if pat.is_prefix_of(s) {
        rep + replace_all(s.skip(pat.len() as int), pat, rep)
    } else {
        seq![s[0]] + replace_all(s.drop_first(), pat, rep)
    }
}

/// `s.replace(pat, rep)` for a non-empty `pat`.
pub fn replace_str(s: &str, pat: &str, rep: &str) -> (r: String)
    requires
        pat@.len() > 0,
    ensures
        r@ == replace_all(s@, pat@, rep@),
{
    let cs = chars_of(s);
    let ps = chars_of(pat);
    let n = cs.len();
    let mut out = String::new();
    let mut i: usize = 0;
    assert(cs@.skip(0) =~= cs@);
    while i < n
        invariant
            n == cs@.len(),
            cs@ == s@,
            ps@ == pat@,
            pat@.len() > 0,
            i <= n,
            out@ + replace_all(cs@.skip(i as int), pat@, rep@) == replace_all(s@, pat@, rep@),
        decreases n - i,
    {
        let ghost rest = cs@.skip(i as int);
        let ghost old_out = out@;
        if has_prefix_at(&cs, i, &ps) {
            out.append(rep);
            proof {
                assert(rest.skip(pat@.len() as int) =~= cs@.skip(i + pat@.len()));
            }
            i = i + ps.len();
            assert(out@ + replace_all(cs@.skip(i as int), pat@, rep@) =~= old_out + replace_all(
                rest,
                pat@,
                rep@,
            ));
        } else {
            push_char(&mut out, cs[i]);
            proof {
                assert(rest.drop_first() =~= cs@.skip(i + 1));
                assert(rest[0] == cs@[i as int]);
            }
            i = i + 1;
            assert(out@ + replace_all(cs@.skip(i as int), pat@, rep@) =~= old_out + replace_all(
                rest,
                pat@,
                rep@,
            ));
        }
    }
    assert(cs@.skip(n as int) =~= Seq::<char>::empty());
    assert(out@ + replace_all(cs@.skip(n as int), pat@, rep@) =~= out@);
    out
}

/// `base` joined with `part` as a Unix `PathBuf::push` joins them: an
/// absolute `part` replaces `base`; otherwise a `'/'` goes between them
/// unless `base` is empty or already ends with one.
pub open spec fn path_join(base: Seq<char>, part: Seq<char>) -> Seq<char> {
    if part.len() > 0 && part[0] == '/' {
        part
    } else if base.len() == 0 {
        part
    } else if base.last() == '/' {
        base + part
    } else {
        base + seq!['/'] + part
    }
}

/// Joins two '/'-separated paths.
pub fn join_path(base: &str, part: &str) -> (r: String)
    ensures
        r@ == path_join(base@, part@),
{
    let bs = chars_of(base);
    let ps = chars_of(part);
    if ps.len() > 0 && ps[0] == '/' {
        return part.to_owned();
    }
    if bs.len() == 0 {
        return part.to_owned();
    }
    let mut out = base.to_owned();
    if bs[bs.len() - 1] != '/' {
        push_char(&mut out, '/');
    }
    out.append(part);
    out
}

} // verus!
