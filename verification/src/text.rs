//! Text helpers: byte-level prefix and substring tests, truncation, tag
//! lists, tokenizing and input validation.
use vstd::prelude::*;
use crate::codec::{utf8_of, utf8_len};
use vstd::utf8::{encode_utf8, encode_scalar, encode_utf8_first_scalar, encode_utf8_decode_utf8, length_of_first_scalar};

verus! {

/// The texts of a list of strings.
pub open spec fn texts_of(v: Seq<String>) -> Seq<Seq<char>> {
    v.map_values(|t: String| t@)
}

/// `p` is a prefix of `s`, compared byte by byte as `str::starts_with` does.
pub open spec fn has_prefix(s: Seq<char>, p: Seq<char>) -> bool {
    utf8_of(p).len() <= utf8_of(s).len() && utf8_of(s).subrange(0, utf8_of(p).len() as int) == utf8_of(p)
}


/// The UTF-8 bytes of two texts one after the other are the bytes of the
/// first followed by those of the second.
pub proof fn lemma_utf8_concat(a: Seq<char>, b: Seq<char>)
    ensures
        utf8_of(a + b) == utf8_of(a) + utf8_of(b),
    decreases a.len(),
{
    if a.len() == 0 {
        assert(a + b =~= b);
        assert(Seq::<u8>::empty() + utf8_of(b) =~= utf8_of(b));
    } else {
        lemma_utf8_concat(a.drop_first(), b);
        assert((a + b).drop_first() =~= a.drop_first() + b);
        assert((a + b)[0] == a[0]);
        assert(utf8_of(a + b) =~= utf8_of(a) + utf8_of(b));
    }
}

/// A text whose UTF-8 bytes begin with the bytes of `p` begins with `p`.
proof fn lemma_leading_bytes_text(s: Seq<char>, p: Seq<char>)
    requires
        utf8_of(p).len() <= utf8_of(s).len(),
        utf8_of(s).subrange(0, utf8_of(p).len() as int) == utf8_of(p),
    ensures
        p.len() <= s.len(),
        s.subrange(0, p.len() as int) == p,
    decreases p.len(),
{
    if p.len() == 0 {
        assert(s.subrange(0, 0) =~= p);
    } else {
        let bs = utf8_of(s);
        let bp = utf8_of(p);
        encode_utf8_first_scalar(p);
        let w = length_of_first_scalar(bp);
        assert(bp == encode_scalar(p[0] as u32) + utf8_of(p.drop_first()));
        assert(1 <= w <= 4);
        assert(bp.len() >= w);
        assert(s.len() > 0) by {
            if s.len() == 0 {
                assert(bs.len() == 0);
            }
        }
        encode_utf8_first_scalar(s);
        assert(bs == encode_scalar(s[0] as u32) + utf8_of(s.drop_first()));
        assert(bs[0] == bp[0]) by {
            assert(bs.subrange(0, bp.len() as int)[0] == bp[0]);
        }
        assert(length_of_first_scalar(bs) == w);
        let es = encode_scalar(s[0] as u32);
        let ep = encode_scalar(p[0] as u32);
        assert(es.len() == w && ep.len() == w);
        assert(es =~= bs.subrange(0, w));
        assert(ep =~= bp.subrange(0, w));
        assert(bs.subrange(0, w) =~= bp.subrange(0, w)) by {
            assert forall|k: int| 0 <= k < w implies bs[k] == bp[k] by {
                assert(bs.subrange(0, bp.len() as int)[k] == bp[k]);
            }
        }
        assert(utf8_of(seq![s[0]]) =~= es) by {
            let c1 = seq![s[0]];
            assert(c1[0] == s[0]);
            assert(c1.drop_first() =~= Seq::<char>::empty());
            assert(encode_utf8(c1.drop_first()) =~= Seq::<u8>::empty());
            assert(encode_utf8(c1) == encode_scalar(c1[0] as u32) + encode_utf8(c1.drop_first()));
        }
        assert(utf8_of(seq![p[0]]) =~= ep) by {
            let c1 = seq![p[0]];
            assert(c1[0] == p[0]);
            assert(c1.drop_first() =~= Seq::<char>::empty());
            assert(encode_utf8(c1.drop_first()) =~= Seq::<u8>::empty());
            assert(encode_utf8(c1) == encode_scalar(c1[0] as u32) + encode_utf8(c1.drop_first()));
        }
        encode_utf8_decode_utf8(seq![s[0]]);
        encode_utf8_decode_utf8(seq![p[0]]);
        assert(seq![s[0]][0] == seq![p[0]][0]);
        let s1 = s.drop_first();
        let p1 = p.drop_first();
        assert(utf8_of(s1) =~= bs.subrange(w, bs.len() as int));
        assert(utf8_of(p1) =~= bp.subrange(w, bp.len() as int));
        assert(utf8_of(s1).subrange(0, utf8_of(p1).len() as int) =~= utf8_of(p1)) by {
            assert forall|k: int| 0 <= k < utf8_of(p1).len() implies utf8_of(s1)[k] == utf8_of(p1)[k] by {
                assert(bs.subrange(0, bp.len() as int)[k + w] == bp[k + w]);
            }
        }
        lemma_leading_bytes_text(s1, p1);
        assert(s.subrange(0, p.len() as int) =~= p) by {
            assert forall|k: int| 0 <= k < p.len() implies s.subrange(0, p.len() as int)[k] == p[k] by {
                if k > 0 {
                    assert(s1.subrange(0, p1.len() as int)[k - 1] == p1[k - 1]);
                }
            }
        }
    }
}

/// `s` begins with `p`, compared byte by byte as `str::starts_with` does,
/// exactly when `p` is the leading part of `s` as text: its first
/// `p.len()` characters are those of `p`.
pub proof fn law_prefix_is_leading_text(s: Seq<char>, p: Seq<char>)
    ensures
        has_prefix(s, p) <==> (p.len() <= s.len() && s.subrange(0, p.len() as int) == p),
{
    if has_prefix(s, p) {
        lemma_leading_bytes_text(s, p);
    }
    if p.len() <= s.len() && s.subrange(0, p.len() as int) == p {
        let rest = s.subrange(p.len() as int, s.len() as int);
        assert(p + rest =~= s);
        lemma_utf8_concat(p, rest);
        assert(utf8_of(s).subrange(0, utf8_of(p).len() as int) =~= utf8_of(p));
    }
}

/// `pat` occurs in `s`, compared byte by byte as `str::contains` does.
pub open spec fn has_substring(s: Seq<char>, pat: Seq<char>) -> bool {
    exists|i: int| 0 <= i && i + utf8_of(pat).len() <= utf8_of(s).len() && #[trigger] utf8_of(s).subrange(i, i + utf8_of(pat).len()) == utf8_of(pat)
}

/// Whether `s` starts with `p`.
pub fn starts_with(s: &str, p: &str) -> (r: bool)
    ensures
        r == has_prefix(s@, p@),
{
    let sb = s.as_bytes();
    let pb = p.as_bytes();
    if pb.len() > sb.len() {
        return false;
    }
    let mut i: usize = 0;
    while i < pb.len()
        invariant
            sb@ == utf8_of(s@),
            pb@ == utf8_of(p@),
            pb@.len() <= sb@.len(),
            i <= pb@.len(),
            forall|j: int| 0 <= j < i ==> sb@[j] == pb@[j],
        decreases pb@.len() - i,
    {
        if sb[i] != pb[i] {
            assert(sb@.subrange(0, pb@.len() as int)[i as int] != pb@[i as int]);
            return false;
        }
        i = i + 1;
    }
    assert(sb@.subrange(0, pb@.len() as int) =~= pb@);
    true
}

/// Whether `pat` occurs in `s`.
pub fn contains(s: &str, pat: &str) -> (r: bool)
    ensures
        r == has_substring(s@, pat@),
{
    let sb = s.as_bytes();
    let pb = pat.as_bytes();
    if pb.len() > sb.len() {
        return false;
    }
    if pb.len() == 0 {
        assert(utf8_of(s@).subrange(0, 0 + utf8_of(pat@).len() as int) =~= utf8_of(pat@));
        return true;
    }
    let sl = sb.len();
    let last = sl - pb.len();
    let mut i: usize = 0;
    while i <= last
        invariant
            sl == sb@.len(),
            pb@.len() > 0,
            sb@ == utf8_of(s@),
            pb@ == utf8_of(pat@),
            last == sb@.len() - pb@.len(),
            i <= last + 1,
            forall|k: int| 0 <= k < i ==> #[trigger] sb@.subrange(k, k + pb@.len()) != pb@,
        decreases last + 1 - i,
    {
        let mut j: usize = 0;
        let mut same = true;
        while j < pb.len()
            invariant
                sl == sb@.len(),
                sb@ == utf8_of(s@),
                pb@ == utf8_of(pat@),
                i <= last,
                last == sb@.len() - pb@.len(),
                j <= pb@.len(),
                same == (forall|t: int| 0 <= t < j ==> sb@[i + t] == pb@[t]),
            decreases pb@.len() - j,
        {
            if sb[i + j] != pb[j] {
                same = false;
            }
            j = j + 1;
        }
        if same {
            assert(utf8_of(s@).subrange(i as int, i + utf8_of(pat@).len()) =~= utf8_of(pat@));
            return true;
        }
        proof {
            let t = choose|t: int| 0 <= t < pb@.len() && sb@[i + t] != pb@[t];
            assert(sb@.subrange(i as int, i + pb@.len())[t] != pb@[t]);
        }
        i = i + 1;
    }
    assert forall|k: int| 0 <= k && k + utf8_of(pat@).len() <= utf8_of(s@).len() implies #[trigger] utf8_of(s@).subrange(k, k + utf8_of(pat@).len()) != utf8_of(pat@) by {
        assert(k < i);
    }
    false
}


/// Appends a character with `String::push`.
///
/// The contract claims what std documents: the character is added at the end.
#[verifier::external_body]
pub(crate) fn push_char(s: &mut String, c: char)
    ensures
        final(s)@ == old(s)@.push(c),
{
    s.push(c);
}

/// Appends the characters of `t`.
pub fn push_all(s: &mut String, t: &str)
    ensures
        final(s)@ == old(s)@ + t@,
{
    s.append(t);
}

/// The decimal digit for `d < 10`.
pub open spec fn digit_char(d: nat) -> char {
    if d == 0 { '0' } else if d == 1 { '1' } else if d == 2 { '2' } else if d == 3 { '3' } else if d == 4 { '4' }
    else if d == 5 { '5' } else if d == 6 { '6' } else if d == 7 { '7' } else if d == 8 { '8' } else { '9' }
}

/// The decimal notation of `n`, without leading zeros.
pub open spec fn decimal(n: nat) -> Seq<char>
    decreases n,
{
    if n < 10 {
        seq![digit_char(n)]
    } else {
        decimal(n / 10) + seq![digit_char(n % 10)]
    }
}

/// The decimal notation of `n` padded with leading zeros to `width` characters.
pub open spec fn padded(n: nat, width: nat) -> Seq<char> {
    if decimal(n).len() >= width {
        decimal(n)
    } else {
        Seq::new((width - decimal(n).len()) as nat, |i: int| '0') + decimal(n)
    }
}

fn digit(d: u64) -> (c: char)
    requires
        d < 10,
    ensures
        c == digit_char(d as nat),
{
    if d == 0 { '0' } else if d == 1 { '1' } else if d == 2 { '2' } else if d == 3 { '3' } else if d == 4 { '4' }
    else if d == 5 { '5' } else if d == 6 { '6' } else if d == 7 { '7' } else if d == 8 { '8' } else { '9' }
}

proof fn lemma_decimal_len(n: nat)
    ensures
        decimal(n).len() >= 1,
    decreases n,
{
    if n >= 10 {
        lemma_decimal_len(n / 10);
    }
}

/// Appends the decimal notation of `n`.
pub fn push_decimal(s: &mut String, n: u64)
    ensures
        final(s)@ == old(s)@ + decimal(n as nat),
    decreases n,
{
    if n < 10 {
        push_char(s, digit(n));
    } else {
        push_decimal(s, n / 10);
        push_char(s, digit(n % 10));
        assert(final(s)@ =~= old(s)@ + decimal(n as nat)) by {
            assert(decimal(n as nat) == decimal((n / 10) as nat) + seq![digit_char((n % 10) as nat)]);
        }
    }
}

/// Appends `n` in decimal, padded with zeros to `width` characters.
pub fn push_padded(s: &mut String, n: u64, width: usize)
    ensures
        final(s)@ == old(s)@ + padded(n as nat, width as nat),
{
    let mut digits = String::new();
    push_decimal(&mut digits, n);
    assert(digits@ =~= decimal(n as nat));
    let len = digits.as_str().unicode_len();
    let ghost start = s@;
    if len < width {
        let mut k: usize = 0;
        while k < width - len
            invariant
                len < width,
                k <= width - len,
                s@ == start + Seq::new(k as nat, |i: int| '0'),
            decreases width - len - k,
        {
            push_char(s, '0');
            assert(s@ =~= start + Seq::new((k + 1) as nat, |i: int| '0'));
            k = k + 1;
        }
    }
    push_all(s, digits.as_str());
    assert(s@ =~= start + padded(n as nat, width as nat));
}


/// The characters of `s`, in order.
pub fn chars_of(s: &str) -> (r: Vec<char>)
    ensures
        r@ == s@,
{
    let n = s.unicode_len();
    let mut r: Vec<char> = Vec::new();
    let mut i: usize = 0;
    while i < n
        invariant
            n == s@.len(),
            i <= n,
            r@ == s@.take(i as int),
        decreases n - i,
    {
        r.push(s.get_char(i));
        assert(r@ =~= s@.take(i + 1));
        i = i + 1;
    }
    assert(r@ =~= s@);
    r
}

/// Builds a `String` from characters.
pub fn string_of(cs: &Vec<char>) -> (r: String)
    ensures
        r@ == cs@,
{
    let mut r = String::new();
    let mut i: usize = 0;
    while i < cs.len()
        invariant
            i <= cs@.len(),
            r@ == cs@.take(i as int),
        decreases cs@.len() - i,
    {
        push_char(&mut r, cs[i]);
        assert(r@ =~= cs@.take(i + 1));
        i = i + 1;
    }
    assert(r@ =~= cs@);
    r
}

/// The parts joined with `sep` between each two.
pub open spec fn join(parts: Seq<Seq<char>>, sep: Seq<char>) -> Seq<char>
    decreases parts.len(),
{
    if parts.len() == 0 {
        Seq::empty()
    } else if parts.len() == 1 {
        parts[0]
    } else {
        join(parts.drop_last(), sep) + sep + parts.last()
    }
}

/// Joins the strings with `sep` between each two, as `[String]::join` does.
pub fn join_strings(parts: &Vec<String>, sep: &str) -> (r: String)
    ensures
        r@ == join(texts_of(parts@), sep@),
{
    let mut r = String::new();
    if parts.len() == 0 {
        return r;
    }
    push_all(&mut r, parts[0].as_str());
    let mut i: usize = 1;
    while i < parts.len()
        invariant
            1 <= i <= parts@.len(),
            r@ == join(texts_of(parts@).take(i as int), sep@),
        decreases parts@.len() - i,
    {
        push_all(&mut r, sep);
        push_all(&mut r, parts[i].as_str());
        assert(texts_of(parts@).take(i + 1).drop_last() =~= texts_of(parts@).take(i as int));
        i = i + 1;
    }
    assert(texts_of(parts@).take(parts@.len() as int) =~= texts_of(parts@));
    r
}

/// The tag list as printed after a record: ` [a, b]`, or nothing without tags.
pub open spec fn tags_suffix(tags: Seq<Seq<char>>) -> Seq<char> {
    if tags.len() == 0 {
        Seq::empty()
    } else {
        " ["@ + join(tags, ", "@) + "]"@
    }
}

/// Formats tags as ` [a, b]` (empty when there are none).
pub fn format_tags(tags: &Vec<String>) -> (r: String)
    ensures
        r@ == tags_suffix(texts_of(tags@)),
{
    if tags.len() == 0 {
        return String::new();
    }
    let mut r = String::from_str(" [");
    let joined = join_strings(tags, ", ");
    push_all(&mut r, joined.as_str());
    push_all(&mut r, "]");
    r
}

/// `s` cut to `max` characters, with `…` appended when anything was cut.
pub open spec fn truncated(s: Seq<char>, max: nat) -> Seq<char> {
    if s.len() > max {
        s.take(max as int).push('\u{2026}')
    } else {
        s
    }
}

/// Cuts `s` to `max_chars` characters, appending `…` when it was longer.
pub fn truncate(s: &str, max_chars: usize) -> (r: String)
    ensures
        r@ == truncated(s@, max_chars as nat),
{
    let n = s.unicode_len();
    let mut r = String::new();
    let mut i: usize = 0;
    while i < n && i < max_chars
        invariant
            n == s@.len(),
            i <= n,
            i <= max_chars,
            r@ == s@.take(i as int),
        decreases n - i,
    {
        push_char(&mut r, s.get_char(i));
        assert(r@ =~= s@.take(i + 1));
        i = i + 1;
    }
    if n > max_chars {
        push_char(&mut r, '\u{2026}');
    } else {
        assert(r@ =~= s@);
    }
    r
}

/// The pieces of `s` between the characters marked as separators (an empty
/// piece between two adjacent separators and at each end next to one), as
/// `str::split` gives them.
pub open spec fn split_marked(s: Seq<char>, marks: Seq<bool>) -> Seq<Seq<char>>
    decreases s.len(),
{
    if s.len() == 0 {
        seq![Seq::empty()]
    } else {
        let p = split_marked(s.drop_last(), marks);
        if marks[s.len() - 1] {
            p.push(Seq::empty())
        } else {
            p.update(p.len() - 1, p.last().push(s.last()))
        }
    }
}

proof fn lemma_split_marked_len(s: Seq<char>, marks: Seq<bool>)
    ensures
        split_marked(s, marks).len() >= 1,
    decreases s.len(),
{
    if s.len() > 0 {
        lemma_split_marked_len(s.drop_last(), marks);
    }
}

/// Splits `cs` at the positions marked in `marks`.
pub fn split_at_marks(cs: &Vec<char>, marks: &Vec<bool>) -> (r: Vec<Vec<char>>)
    requires
        marks@.len() == cs@.len(),
    ensures
        r@.map_values(|v: Vec<char>| v@) == split_marked(cs@, marks@),
{
    let mut done: Vec<Vec<char>> = Vec::new();
    let mut cur: Vec<char> = Vec::new();
    let mut i: usize = 0;
    while i < cs.len()
        invariant
            marks@.len() == cs@.len(),
            i <= cs@.len(),
            done@.map_values(|v: Vec<char>| v@).push(cur@) == split_marked(cs@.take(i as int), marks@),
        decreases cs@.len() - i,
    {
        proof {
            lemma_split_marked_len(cs@.take(i as int), marks@);
            assert(cs@.take(i + 1).drop_last() =~= cs@.take(i as int));
        }
        let ghost before = done@.map_values(|v: Vec<char>| v@);
        if marks[i] {
            let mut finished: Vec<char> = Vec::new();
            std::mem::swap(&mut finished, &mut cur);
            done.push(finished);
            assert(done@.map_values(|v: Vec<char>| v@) =~= before.push(finished@));
        } else {
            cur.push(cs[i]);
            assert(done@.map_values(|v: Vec<char>| v@) =~= before);
        }
        assert(done@.map_values(|v: Vec<char>| v@).push(cur@) =~= split_marked(cs@.take(i + 1), marks@));
        i = i + 1;
    }
    assert(cs@.take(cs@.len() as int) =~= cs@);
    let ghost before = done@.map_values(|v: Vec<char>| v@);
    done.push(cur);
    assert(done@.map_values(|v: Vec<char>| v@) =~= before.push(cur@));
    done
}

/// The characters `cs[from..to]`.
pub fn slice_chars(cs: &Vec<char>, from: usize, to: usize) -> (r: Vec<char>)
    requires
        from <= to <= cs@.len(),
    ensures
        r@ == cs@.subrange(from as int, to as int),
{
    let mut r: Vec<char> = Vec::new();
    let mut i = from;
    while i < to
        invariant
            from <= i <= to <= cs@.len(),
            r@ == cs@.subrange(from as int, i as int),
        decreases to - i,
    {
        r.push(cs[i]);
        assert(r@ =~= cs@.subrange(from as int, i + 1));
        i = i + 1;
    }
    r
}



/// Whether `c` has the Unicode `White_Space` property: tab, line feed, line
/// tabulation, form feed, carriage return, space, next line, no-break space,
/// ogham space mark, the spaces U+2000 to U+200A, line separator, paragraph
/// separator, narrow no-break space, medium mathematical space and
/// ideographic space.
pub open spec fn whitespace(c: char) -> bool {
    let u = c as u32;
    ||| 0x09 <= u <= 0x0D
    ||| u == 0x20
    ||| u == 0x85
    ||| u == 0xA0
    ||| u == 0x1680
    ||| 0x2000 <= u <= 0x200A
    ||| u == 0x2028
    ||| u == 0x2029
    ||| u == 0x202F
    ||| u == 0x205F
    ||| u == 0x3000
}

/// Calls `char::is_whitespace`, which answers whether `c` has the Unicode
/// `White_Space` property.
#[verifier::external_body]
fn is_space(c: char) -> (r: bool)
    ensures
        r == whitespace(c),
{
    c.is_whitespace()
}

/// `s` without its leading white space.
pub open spec fn trim_start(s: Seq<char>) -> Seq<char>
    decreases s.len(),
{
    if s.len() > 0 && whitespace(s[0]) {
        trim_start(s.drop_first())
    } else {
        s
    }
}

/// `s` without its trailing white space.
pub open spec fn trim_end(s: Seq<char>) -> Seq<char>
    decreases s.len(),
{
    if s.len() > 0 && whitespace(s.last()) {
        trim_end(s.drop_last())
    } else {
        s
    }
}

/// `s` without leading and trailing white space, as `str::trim` gives it.
pub open spec fn trimmed(s: Seq<char>) -> Seq<char> {
    trim_end(trim_start(s))
}

/// The characters of `cs` without leading and trailing white space.
pub fn trim_chars(cs: &Vec<char>) -> (r: Vec<char>)
    ensures
        r@ == trimmed(cs@),
{
    let n = cs.len();
    let mut i: usize = 0;
    assert(cs@.skip(0) =~= cs@);
    while i < n && is_space(cs[i])
        invariant
            n == cs@.len(),
            i <= n,
            trim_start(cs@) == trim_start(cs@.skip(i as int)),
        decreases n - i,
    {
        assert(cs@.skip(i as int).drop_first() =~= cs@.skip(i + 1));
        i = i + 1;
    }
    if i == n {
        assert(cs@.skip(i as int) =~= Seq::<char>::empty());
    } else {
        assert(cs@.skip(i as int)[0] == cs@[i as int]);
    }
    assert(trim_start(cs@) == cs@.subrange(i as int, n as int));
    let mut j: usize = n;
    while j > i && is_space(cs[j - 1])
        invariant
            n == cs@.len(),
            i <= j <= n,
            trimmed(cs@) == trim_end(cs@.subrange(i as int, j as int)),
        decreases j,
    {
        assert(cs@.subrange(i as int, j as int).drop_last() =~= cs@.subrange(i as int, j - 1));
        j = j - 1;
    }
    slice_chars(cs, i, j)
}

/// `s` without leading and trailing white space.
pub fn trim(s: &str) -> (r: String)
    ensures
        r@ == trimmed(s@),
{
    let cs = chars_of(s);
    let t = trim_chars(&cs);
    string_of(&t)
}

/// Whether `c` is a letter or digit, as `char::is_alphanumeric` decides.
pub uninterp spec fn alphanumeric(c: char) -> bool;

/// Calls `char::is_alphanumeric` (Unicode alphabetic or numeric). The
/// contract names the answer; which characters qualify is not stated.
#[verifier::external_body]
fn is_alnum(c: char) -> (r: bool)
    ensures
        r == alphanumeric(c),
{
    c.is_alphanumeric()
}

/// What `str::to_lowercase` gives for `s`.
pub uninterp spec fn lowercase(s: Seq<char>) -> Seq<char>;

/// Calls `str::to_lowercase`. The contract names the result; the Unicode
/// case mapping it applies is not stated.
#[verifier::external_body]
pub(crate) fn to_lower(s: &str) -> (r: String)
    ensures
        r@ == lowercase(s@),
{
    s.to_lowercase()
}

/// The search tokens of a query: the pieces between characters that are
/// not letters or digits, those longer than one byte, lowercased.
pub open spec fn tokens(s: Seq<char>) -> Seq<Seq<char>> {
    split_marked(s, s.map_values(|c: char| !alphanumeric(c)))
        .filter(|w: Seq<char>| utf8_of(w).len() > 1)
        .map_values(|w: Seq<char>| lowercase(w))
}

/// Splits a query into lowercase tokens (longer than one byte).
pub fn tokenize(query: &str) -> (r: Vec<String>)
    ensures
        texts_of(r@) == tokens(query@),
{
    let cs = chars_of(query);
    let mut marks: Vec<bool> = Vec::new();
    let mut i: usize = 0;
    while i < cs.len()
        invariant
            i <= cs@.len(),
            marks@ == cs@.take(i as int).map_values(|c: char| !alphanumeric(c)),
        decreases cs@.len() - i,
    {
        marks.push(!is_alnum(cs[i]));
        assert(marks@ =~= cs@.take(i + 1).map_values(|c: char| !alphanumeric(c)));
        i = i + 1;
    }
    assert(cs@.take(cs@.len() as int) =~= cs@);
    let pieces = split_at_marks(&cs, &marks);
    let ghost ps = pieces@.map_values(|v: Vec<char>| v@);
    let ghost keep = |w: Seq<char>| utf8_of(w).len() > 1;
    let ghost low = |w: Seq<char>| lowercase(w);
    let mut r: Vec<String> = Vec::new();
    let mut k: usize = 0;
    while k < pieces.len()
        invariant
            ps == pieces@.map_values(|v: Vec<char>| v@),
            keep == |w: Seq<char>| utf8_of(w).len() > 1,
            low == |w: Seq<char>| lowercase(w),
            k <= pieces@.len(),
            texts_of(r@) == ps.take(k as int).filter(keep).map_values(low),
        decreases pieces@.len() - k,
    {
        proof {
            assert(ps.take(k + 1) =~= ps.take(k as int).push(ps[k as int]));
            ps.take(k as int).lemma_filter_push(ps[k as int], keep);
        }
        let w = string_of(&pieces[k]);
        if utf8_len(&w) > 1 {
            let ghost before = r@;
            r.push(to_lower(w.as_str()));
            assert(texts_of(r@) =~= texts_of(before).push(lowercase(w@)));
            assert(ps.take(k as int).filter(keep).push(ps[k as int]).map_values(low)
                =~= ps.take(k as int).filter(keep).map_values(low).push(lowercase(ps[k as int])));
        }
        k = k + 1;
    }
    assert(ps.take(pieces@.len() as int) =~= ps);
    r
}

/// How many of `words` occur in `text`, each word lowercased.
pub open spec fn hit_count(text: Seq<char>, words: Seq<Seq<char>>) -> nat
    decreases words.len(),
{
    if words.len() == 0 {
        0
    } else {
        hit_count(text, words.drop_last()) + if has_substring(text, lowercase(words.last())) { 1nat } else { 0nat }
    }
}

/// How many of the query words occur in the text, ignoring case: text and
/// words are both lowercased.
pub fn keyword_hits(text: &str, words: &Vec<String>) -> (r: usize)
    ensures
        r == hit_count(lowercase(text@), texts_of(words@)),
{
    let lower = to_lower(text);
    let mut count: usize = 0;
    let mut k: usize = 0;
    while k < words.len()
        invariant
            k <= words@.len(),
            lower@ == lowercase(text@),
            count == hit_count(lowercase(text@), texts_of(words@).take(k as int)),
            count <= k,
        decreases words@.len() - k,
    {
        assert(texts_of(words@).take(k + 1).drop_last() =~= texts_of(words@).take(k as int));
        let word = to_lower(words[k].as_str());
        if contains(lower.as_str(), word.as_str()) {
            count = count + 1;
        }
        k = k + 1;
    }
    assert(texts_of(words@).take(words@.len() as int) =~= texts_of(words@));
    count
}

} // verus!
