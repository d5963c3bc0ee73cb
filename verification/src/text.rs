//! Character-level string helpers with specifications.
//!
//! Strings are reasoned about through their view, a `Seq<char>`. Byte
//! lengths are the lengths of the UTF-8 encodings of those sequences.
use vstd::prelude::*;
use vstd::utf8::*;

verus! {

broadcast use vstd::utf8::char_is_scalar;

// ---------------------------------------------------------------------------
// Specifications
// ---------------------------------------------------------------------------

/// `p` is a prefix of `s`.
pub open spec fn has_prefix(s: Seq<char>, p: Seq<char>) -> bool {
    p.len() <= s.len() && s.subrange(0, p.len() as int) == p
}

/// `p` is a suffix of `s`.
pub open spec fn has_suffix(s: Seq<char>, p: Seq<char>) -> bool {
    p.len() <= s.len() && s.subrange(s.len() - p.len(), s.len() as int) == p
}

/// `p` occurs in `s` starting at position `i`.
pub open spec fn occurs_at(s: Seq<char>, p: Seq<char>, i: int) -> bool {
    0 <= i && i + p.len() <= s.len() && s.subrange(i, i + p.len()) == p
}

/// `p` occurs somewhere in `s`.
pub open spec fn has_substring(s: Seq<char>, p: Seq<char>) -> bool {
    exists|i: int| occurs_at(s, p, i)
}

/// Unicode `White_Space`, the property that `char::is_whitespace` tests.
pub open spec fn is_white_space(c: char) -> bool {
    let u = c as u32;
    ||| 0x9 <= u <= 0xD
    ||| u == 0x20
    ||| u == 0x85
    ||| u == 0xA0
    ||| u == 0x1680
    ||| 0x2000 <= u <= 0x200A
    ||| u == 0x2028
    ||| u == 0x2029
    ||| u == 0x202F
    ||| u == 0x205F
    ||| u == 0x3000
}

/// Number of leading white-space characters of `s`.
pub open spec fn leading_ws(s: Seq<char>) -> nat
    decreases s.len(),
{
    if s.len() > 0 && is_white_space(s[0]) {
        1 + leading_ws(s.drop_first())
    } else {
        0
    }
}

/// Number of trailing white-space characters of `s`.
pub open spec fn trailing_ws(s: Seq<char>) -> nat
    decreases s.len(),
{
    if s.len() > 0 && is_white_space(s.last()) {
        1 + trailing_ws(s.drop_last())
    } else {
        0
    }
}

/// `s` without leading and trailing white space (what `str::trim` returns).
pub open spec fn trimmed(s: Seq<char>) -> Seq<char> {
    let t = s.skip(leading_ws(s) as int);
    t.take(t.len() - trailing_ws(t))
}

proof fn lemma_leading_ws(s: Seq<char>)
    ensures
        leading_ws(s) <= s.len(),
        forall|i: int| 0 <= i < leading_ws(s) ==> is_white_space(#[trigger] s[i]),
        leading_ws(s) < s.len() ==> !is_white_space(s[leading_ws(s) as int]),
    decreases s.len(),
{
    if s.len() > 0 && is_white_space(s[0]) {
        lemma_leading_ws(s.drop_first());
        assert forall|i: int| 0 <= i < leading_ws(s) implies is_white_space(#[trigger] s[i]) by {
            if i > 0 {
                assert(s[i] == s.drop_first()[i - 1]);
            }
        }
        if leading_ws(s) < s.len() {
            assert(s[leading_ws(s) as int] == s.drop_first()[leading_ws(s.drop_first()) as int]);
        }
    }
}

proof fn lemma_trailing_ws(s: Seq<char>)
    ensures
        trailing_ws(s) <= s.len(),
        forall|i: int| s.len() - trailing_ws(s) <= i < s.len() ==> is_white_space(#[trigger] s[i]),
        trailing_ws(s) < s.len() ==> !is_white_space(s[s.len() - trailing_ws(s) - 1]),
    decreases s.len(),
{
    if s.len() > 0 && is_white_space(s.last()) {
        lemma_trailing_ws(s.drop_last());
        assert forall|i: int| s.len() - trailing_ws(s) <= i < s.len() implies is_white_space(#[trigger] s[i]) by {
            if i < s.len() - 1 {
                assert(s[i] == s.drop_last()[i]);
            }
        }
        if trailing_ws(s) < s.len() {
            assert(s[s.len() - trailing_ws(s) - 1] == s.drop_last()[s.drop_last().len() - trailing_ws(s.drop_last()) - 1]);
        }
    }
}

/// Trimming keeps the piece of `s` between its leading and its trailing
/// white space: what it drops is white space only, and the piece neither
/// starts nor ends with white space.
pub proof fn lemma_trimmed_shape(s: Seq<char>)
    ensures
        exists|a: int, b: int| {
            &&& 0 <= a <= b <= s.len()
            &&& trimmed(s) == s.subrange(a, b)
            &&& forall|i: int| 0 <= i < a ==> is_white_space(#[trigger] s[i])
            &&& forall|i: int| b <= i < s.len() ==> is_white_space(#[trigger] s[i])
        },
        trimmed(s).len() > 0 ==> !is_white_space(trimmed(s)[0]) && !is_white_space(trimmed(s).last()),
{
    let a = leading_ws(s) as int;
    lemma_leading_ws(s);
    let t = s.skip(a);
    lemma_trailing_ws(t);
    let b = a + t.len() - trailing_ws(t);
    assert(trimmed(s) =~= s.subrange(a, b));
    assert forall|i: int| b <= i < s.len() implies is_white_space(#[trigger] s[i]) by {
        assert(s[i] == t[i - a]);
    }
    if trimmed(s).len() > 0 {
        assert(trimmed(s)[0] == s[a]);
        assert(trimmed(s).last() == t[t.len() - trailing_ws(t) - 1]);
    }
    assert(0 <= a <= b <= s.len() && trimmed(s) == s.subrange(a, b));
}

/// `s` consists of white space only (possibly nothing).
pub open spec fn is_blank(s: Seq<char>) -> bool {
    forall|i: int| 0 <= i < s.len() ==> is_white_space(#[trigger] s[i])
}

/// Bytes of the UTF-8 encoding of `s`.
pub open spec fn byte_len(s: Seq<char>) -> nat {
    encode_utf8(s).len()
}

/// Bytes of the UTF-8 encoding of one character.
pub open spec fn char_byte_len(c: char) -> nat {
    let u = c as u32;
    if u < 0x80 {
        1
    } else if u < 0x800 {
        2
    } else if u < 0x10000 {
        3
    } else {
        4
    }
}

/// Decimal digit for `d < 10`.
pub open spec fn digit_char(d: nat) -> char {
    if d == 0 { '0' }
    else if d == 1 { '1' }
    else if d == 2 { '2' }
    else if d == 3 { '3' }
    else if d == 4 { '4' }
    else if d == 5 { '5' }
    else if d == 6 { '6' }
    else if d == 7 { '7' }
    else if d == 8 { '8' }
    else { '9' }
}

/// Decimal representation of `n`, without leading zeros (`"0"` for zero).
pub open spec fn decimal(n: nat) -> Seq<char>
    decreases n,
{
    if n < 10 {
        seq![digit_char(n)]
    } else {
        decimal(n / 10).push(digit_char(n % 10))
    }
}

/// The pieces of `s` separated by `sep` (what `str::split(sep)` yields).
pub open spec fn split_on(s: Seq<char>, sep: char) -> Seq<Seq<char>>
    decreases s.len(),
{
    if s.len() == 0 {
        seq![seq![]]
    } else {
        let rest = split_on(s.drop_last(), sep);
        if s.last() == sep {
            rest.push(seq![])
        } else {
            rest.update(rest.len() - 1, rest.last().push(s.last()))
        }
    }
}

/// One line of `str::lines`: a trailing carriage return is dropped.
pub open spec fn strip_cr(l: Seq<char>) -> Seq<char> {
    if l.len() > 0 && l.last() == '\r' {
        l.drop_last()
    } else {
        l
    }
}

/// The lines of `s` as `str::lines` yields them: split on `'\n'`, a final
/// empty piece (after a trailing newline, or of the empty string) is not a
/// line, and each line loses one trailing `'\r'`.
pub open spec fn lines_of(s: Seq<char>) -> Seq<Seq<char>> {
    let pieces = split_on(s, '\n');
    let kept = if pieces.last().len() == 0 {
        pieces.drop_last()
    } else {
        pieces
    };
    kept.map_values(|l: Seq<char>| strip_cr(l))
}

/// The pieces of `parts`, joined with `sep` between each two.
pub open spec fn join(parts: Seq<Seq<char>>, sep: Seq<char>) -> Seq<char>
    decreases parts.len(),
{
    if parts.len() == 0 {
        seq![]
    } else if parts.len() == 1 {
        parts[0]
    } else {
        join(parts.drop_last(), sep) + sep + parts.last()
    }
}

/// Each piece of a join stands in the joined text.
pub proof fn lemma_join_holds_each_part(parts: Seq<Seq<char>>, sep: Seq<char>, i: int)
    requires
        0 <= i < parts.len(),
    ensures
        has_substring(join(parts, sep), parts[i]),
    decreases parts.len(),
{
    let whole = join(parts, sep);
    if parts.len() == 1 {
        assert(whole.subrange(0, parts[0].len() as int) =~= parts[0]);
        assert(occurs_at(whole, parts[i], 0));
    } else {
        let front = join(parts.drop_last(), sep);
        if i == parts.len() - 1 {
            let k: int = (front.len() + sep.len()) as int;
            assert(whole.subrange(k, k + parts.last().len()) =~= parts.last());
            assert(occurs_at(whole, parts[i], k));
        } else {
            lemma_join_holds_each_part(parts.drop_last(), sep, i);
            assert(parts.drop_last()[i] == parts[i]);
            let k = choose|k: int| occurs_at(front, parts[i], k);
            assert(whole.subrange(k, k + parts[i].len()) =~= front.subrange(k, k + parts[i].len()));
            assert(occurs_at(whole, parts[i], k));
        }
    }
}

// ---------------------------------------------------------------------------
// Lemmas
// ---------------------------------------------------------------------------

/// The encoding of a concatenation is the concatenation of the encodings.
pub proof fn lemma_encode_concat(a: Seq<char>, b: Seq<char>)
    ensures
        encode_utf8(a + b) == encode_utf8(a) + encode_utf8(b),
    decreases a.len(),
{
    if a.len() == 0 {
        assert(a + b =~= b);
        assert(encode_utf8(a) =~= Seq::<u8>::empty());
        assert(encode_utf8(a) + encode_utf8(b) =~= encode_utf8(b));
    } else {
        lemma_encode_concat(a.drop_first(), b);
        assert((a + b).drop_first() =~= a.drop_first() + b);
        assert((a + b)[0] == a[0]);
        assert(encode_scalar(a[0] as u32) + (encode_utf8(a.drop_first()) + encode_utf8(b))
            =~= (encode_scalar(a[0] as u32) + encode_utf8(a.drop_first())) + encode_utf8(b));
    }
}

/// A single character encodes to `char_byte_len(c)` bytes.
pub proof fn lemma_encode_char(c: char)
    ensures
        byte_len(seq![c]) == char_byte_len(c),
{
    assert(seq![c].drop_first() =~= Seq::<char>::empty());
    assert(encode_utf8(Seq::<char>::empty()) =~= Seq::<u8>::empty());
    assert(is_scalar(c as u32));
}

/// Byte length is additive.
pub proof fn lemma_byte_len_concat(a: Seq<char>, b: Seq<char>)
    ensures
        byte_len(a + b) == byte_len(a) + byte_len(b),
{
    lemma_encode_concat(a, b);
}

/// Appending one character adds its byte length.
pub proof fn lemma_byte_len_push(a: Seq<char>, c: char)
    ensures
        byte_len(a.push(c)) == byte_len(a) + char_byte_len(c),
{
    assert(a.push(c) =~= a + seq![c]);
    lemma_byte_len_concat(a, seq![c]);
    lemma_encode_char(c);
}

/// Byte length of the empty sequence.
pub proof fn lemma_byte_len_empty()
    ensures
        byte_len(Seq::<char>::empty()) == 0,
{
    assert(encode_utf8(Seq::<char>::empty()) =~= Seq::<u8>::empty());
}

/// Every character is at least one byte, so bytes bound characters.
pub proof fn lemma_chars_le_bytes(a: Seq<char>)
    ensures
        a.len() <= byte_len(a),
    decreases a.len(),
{
    if a.len() == 0 {
        lemma_byte_len_empty();
    } else {
        lemma_chars_le_bytes(a.drop_last());
        assert(a =~= a.drop_last().push(a.last()));
        lemma_byte_len_push(a.drop_last(), a.last());
    }
}

// ---------------------------------------------------------------------------
// Executable helpers
// ---------------------------------------------------------------------------

/// The characters of `s`, in order.
pub fn chars_of(s: &str) -> (res: Vec<char>)
    ensures
        res@ == s@,
{
    let mut res: Vec<char> = Vec::new();
    for c in it: s.chars()
        invariant
            res@ == it.seq().take(it.index() as int),
    {
        res.push(c);
    }
    res
}

/// Appends one character (`String::push`).
#[verifier::external_body]
pub(crate) fn push_char(s: &mut String, c: char)
    ensures
        final(s)@ == old(s)@.push(c),
{
    s.push(c);
}

/// A `String` holding exactly the given characters.
pub fn string_of(chars: &[char]) -> (res: String)
    ensures
        res@ == chars@,
{
    let mut res = String::new();
    let mut i: usize = 0;
    while i < chars.len()
        invariant
            i <= chars@.len(),
            res@ == chars@.take(i as int),
        decreases chars@.len() - i,
    {
        push_char(&mut res, chars[i]);
        proof {
            assert(chars@.take(i + 1) =~= chars@.take(i as int).push(chars@[i as int]));
        }
        i += 1;
    }
    proof {
        assert(chars@.take(chars@.len() as int) =~= chars@);
    }
    res
}

/// Equality of two string slices by their characters.
pub fn str_eq(a: &str, b: &str) -> (res: bool)
    ensures
        res == (a@ == b@),
{
    let x = a.to_owned();
    let y = b.to_owned();
    x == y
}

/// Number of UTF-8 bytes of one character (`char::len_utf8`).
pub fn char_len_utf8(c: char) -> (n: usize)
    ensures
        n == char_byte_len(c),
        1 <= n <= 4,
{
    let u = c as u32;
    if u < 0x80 {
        1
    } else if u < 0x800 {
        2
    } else if u < 0x10000 {
        3
    } else {
        4
    }
}

/// Whether `c` is Unicode white space (`char::is_whitespace`).
pub fn is_whitespace(c: char) -> (res: bool)
    ensures
        res == is_white_space(c),
{
    let u = c as u32;
    (0x9 <= u && u <= 0xD) || u == 0x20 || u == 0x85 || u == 0xA0 || u == 0x1680 || (0x2000 <= u
        && u <= 0x200A) || u == 0x2028 || u == 0x2029 || u == 0x202F || u == 0x205F || u == 0x3000
}

/// Whether `p` is a prefix of `s`.
pub fn starts_with(s: &[char], p: &[char]) -> (res: bool)
    ensures
        res == has_prefix(s@, p@),
{
    if p.len() > s.len() {
        return false;
    }
    let mut i: usize = 0;
    while i < p.len()
        invariant
            p@.len() <= s@.len(),
            i <= p@.len(),
            forall|j: int| 0 <= j < i ==> s@[j] == p@[j],
        decreases p@.len() - i,
    {
        if s[i] != p[i] {
            proof {
                assert(s@.subrange(0, p@.len() as int)[i as int] != p@[i as int]);
            }
            return false;
        }
        i += 1;
    }
    proof {
        assert(s@.subrange(0, p@.len() as int) =~= p@);
    }
    true
}

/// Whether `p` is a suffix of `s`.
pub fn ends_with(s: &[char], p: &[char]) -> (res: bool)
    ensures
        res == has_suffix(s@, p@),
{
    if p.len() > s.len() {
        return false;
    }
    let off = s.len() - p.len();
    let mut i: usize = 0;
    while i < p.len()
        invariant
            p@.len() <= s@.len(),
            s@.len() <= usize::MAX,
            off == s@.len() - p@.len(),
            i <= p@.len(),
            forall|j: int| 0 <= j < i ==> s@[off + j] == p@[j],
        decreases p@.len() - i,
    {
        if s[off + i] != p[i] {
            proof {
                assert(s@.subrange(off as int, s@.len() as int)[i as int] != p@[i as int]);
            }
            return false;
        }
        i += 1;
    }
    proof {
        assert(s@.subrange(off as int, s@.len() as int) =~= p@);
    }
    true
}

/// Whether `p` occurs at position `i` of `s`.
pub fn matches_at(s: &[char], p: &[char], i: usize) -> (res: bool)
    ensures
        res == occurs_at(s@, p@, i as int),
{
    if i > s.len() || p.len() > s.len() - i {
        return false;
    }
    let mut j: usize = 0;
    while j < p.len()
        invariant
            i + p@.len() <= s@.len(),
            s@.len() <= usize::MAX,
            j <= p@.len(),
            forall|k: int| 0 <= k < j ==> s@[i + k] == p@[k],
        decreases p@.len() - j,
    {
        if s[i + j] != p[j] {
            proof {
                assert(s@.subrange(i as int, i + p@.len())[j as int] != p@[j as int]);
            }
            return false;
        }
        j += 1;
    }
    proof {
        assert(s@.subrange(i as int, i + p@.len()) =~= p@);
    }
    true
}

/// Whether `p` occurs somewhere in `s` (`str::contains`).
pub fn contains_sub(s: &[char], p: &[char]) -> (res: bool)
    ensures
        res == has_substring(s@, p@),
{
    let n = s.len();
    let mut i: usize = 0;
    loop
        invariant
            n == s@.len(),
            i <= n,
            forall|k: int| 0 <= k < i ==> !occurs_at(s@, p@, k),
        decreases n - i,
    {
        if matches_at(s, p, i) {
            return true;
        }
        if i == n {
            proof {
                assert forall|k: int| !occurs_at(s@, p@, k) by {
                    if 0 <= k && k < i {
                    }
                }
            }
            return false;
        }
        i += 1;
    }
}


/// The decimal digit character for `d < 10`.
pub fn digit(d: usize) -> (c: char)
    requires
        d < 10,
    ensures
        c == digit_char(d as nat),
{
    if d == 0 { '0' }
    else if d == 1 { '1' }
    else if d == 2 { '2' }
    else if d == 3 { '3' }
    else if d == 4 { '4' }
    else if d == 5 { '5' }
    else if d == 6 { '6' }
    else if d == 7 { '7' }
    else if d == 8 { '8' }
    else { '9' }
}

/// Decimal representation of `n` (what `format!("{}", n)` writes).
pub fn decimal_string(n: usize) -> (res: String)
    ensures
        res@ == decimal(n as nat),
    decreases n,
{
    if n < 10 {
        let mut s = String::new();
        push_char(&mut s, digit(n));
        proof {
            assert(s@ =~= seq![digit_char(n as nat)]);
        }
        s
    } else {
        let mut s = decimal_string(n / 10);
        push_char(&mut s, digit(n % 10));
        s
    }
}

/// Decimal representation of a `u64`.
pub fn decimal_string_u64(n: u64) -> (res: String)
    ensures
        res@ == decimal(n as nat),
    decreases n,
{
    if n < 10 {
        let mut s = String::new();
        push_char(&mut s, digit(n as usize));
        proof {
            assert(s@ =~= seq![digit_char(n as nat)]);
        }
        s
    } else {
        let mut s = decimal_string_u64(n / 10);
        push_char(&mut s, digit((n % 10) as usize));
        s
    }
}

/// `a` followed by `b`, as a new `String`.
pub fn concat2(a: &str, b: &str) -> (res: String)
    ensures
        res@ == a@ + b@,
{
    let mut s = a.to_owned();
    s.append(b);
    s
}

/// `a`, `b` and `c`, one after the other, as a new `String`.
pub fn concat3(a: &str, b: &str, c: &str) -> (res: String)
    ensures
        res@ == a@ + b@ + c@,
{
    let mut s = a.to_owned();
    s.append(b);
    s.append(c);
    s
}

/// The characters of `s` without leading and trailing white space (`str::trim`).
pub fn trim_chars(s: &Vec<char>) -> (r: Vec<char>)
    ensures
        r@ == trimmed(s@),
{
    let mut a: usize = 0;
    proof {
        assert(s@.skip(0) =~= s@);
    }
    while a < s.len() && is_whitespace(s[a])
        invariant
            a <= s@.len(),
            leading_ws(s@) == a + leading_ws(s@.skip(a as int)),
        decreases s@.len() - a,
    {
        proof {
            assert(s@.skip(a as int)[0] == s@[a as int]);
            assert(s@.skip(a as int).drop_first() =~= s@.skip(a + 1));
        }
        a += 1;
    }
    let ghost t = s@.skip(a as int);
    proof {
        if a < s@.len() {
            assert(t[0] == s@[a as int]);
        }
        assert(t.take(t.len() as int) =~= t);
    }
    let mut b: usize = s.len();
    while b > a && is_whitespace(s[b - 1])
        invariant
            a <= b <= s@.len(),
            t == s@.skip(a as int),
            trailing_ws(t) == (s@.len() - b) + trailing_ws(t.take(b - a)),
        decreases b,
    {
        proof {
            assert(t.take(b - a).last() == s@[b - 1]);
            assert(t.take(b - a).drop_last() =~= t.take(b - a - 1));
        }
        b -= 1;
    }
    proof {
        if b > a {
            assert(t.take(b - a).last() == s@[b - 1]);
        }
    }
    let mut r: Vec<char> = Vec::new();
    let mut k: usize = a;
    while k < b
        invariant
            a <= k <= b <= s@.len(),
            r@ == s@.subrange(a as int, k as int),
        decreases b - k,
    {
        r.push(s[k]);
        proof {
            assert(s@.subrange(a as int, k + 1) =~= s@.subrange(a as int, k as int).push(s@[k as int]));
        }
        k += 1;
    }
    proof {
        assert(t.take(b - a) =~= s@.subrange(a as int, b as int));
    }
    r
}

/// `dir` joined with the relative path `name` by a `/` (`Path::join` on Unix).
pub open spec fn joined(dir: Seq<char>, name: Seq<char>) -> Seq<char> {
    if dir.len() == 0 || dir.last() == '/' {
        dir + name
    } else {
        dir + seq!['/'] + name
    }
}

/// `dir` joined with the relative path `name`.
pub fn path_join(dir: &str, name: &str) -> (r: String)
    ensures
        r@ == joined(dir@, name@),
{
    let mut v = chars_of(dir);
    if v.len() > 0 && v[v.len() - 1] != '/' {
        v.push('/');
    }
    let mut n = chars_of(name);
    v.append(&mut n);
    proof {
        assert(v@ =~= joined(dir@, name@));
    }
    string_of(v.as_slice())
}


/// `s` with `p` replaced by `t` as `str::replace` does: each occurrence of
/// a non-empty `p`, left to right and without overlap; an empty `p` matches
/// before every character and at the end.
pub open spec fn replace_all(s: Seq<char>, p: Seq<char>, t: Seq<char>) -> Seq<char>
    decreases s.len(),
{
    if p.len() == 0 {
        if s.len() == 0 { t } else { t + seq![s[0]] + replace_all(s.skip(1), p, t) }
    } else if s.len() >= p.len() && s.take(p.len() as int) == p {
        t + replace_all(s.skip(p.len() as int), p, t)
    } else if s.len() == 0 {
        s
    } else {
        seq![s[0]] + replace_all(s.skip(1), p, t)
    }
}

/// `s` with `p` replaced by `t` (see [`replace_all`]).
pub fn replace_chars(s: &Vec<char>, p: &Vec<char>, t: &Vec<char>) -> (r: Vec<char>)
    ensures
        r@ == replace_all(s@, p@, t@),
{
    let mut out: Vec<char> = Vec::new();
    let mut i: usize = 0;
    proof {
        assert(s@.skip(0) =~= s@);
    }
    while i < s.len()
        invariant
            i <= s@.len(),
            out@ + replace_all(s@.skip(i as int), p@, t@) == replace_all(s@, p@, t@),
        decreases s@.len() - i,
    {
        let ghost rest = s@.skip(i as int);
        if p.len() > 0 && matches_at(s.as_slice(), p.as_slice(), i) {
            proof {
                assert(rest.take(p@.len() as int) =~= s@.subrange(i as int, i + p@.len()));
                assert(rest.skip(p@.len() as int) =~= s@.skip(i + p@.len()));
            }
            let ghost before = out@;
            let mut piece = t.clone();
            out.append(&mut piece);
            proof {
                assert(out@ + replace_all(s@.skip(i + p@.len()), p@, t@) =~= before + replace_all(rest, p@, t@));
            }
            i = i + p.len();
        } else {
            let ghost before = out@;
            if p.len() == 0 {
                let mut piece = t.clone();
                out.append(&mut piece);
            }
            out.push(s[i]);
            proof {
                assert(rest[0] == s@[i as int]);
                assert(rest.skip(1) =~= s@.skip(i + 1));
                if p@.len() > 0 && rest.len() >= p@.len() {
                    assert(rest.take(p@.len() as int) =~= s@.subrange(i as int, i + p@.len()));
                }
                assert(out@ + replace_all(s@.skip(i + 1), p@, t@) =~= before + replace_all(rest, p@, t@));
            }
            i = i + 1;
        }
    }
    let ghost before = out@;
    if p.len() == 0 {
        let mut piece = t.clone();
        out.append(&mut piece);
    }
    proof {
        assert(s@.skip(i as int) =~= Seq::<char>::empty());
        if p@.len() == 0 {
            assert(out@ =~= before + t@);
        } else {
            assert(out@ =~= before);
        }
    }
    out
}

/// Splitting never gives an empty list of pieces.
pub proof fn lemma_split_on_nonempty(s: Seq<char>, sep: char)
    ensures
        split_on(s, sep).len() >= 1,
    decreases s.len(),
{
    if s.len() > 0 {
        lemma_split_on_nonempty(s.drop_last(), sep);
    }
}

/// Splitting text joined by a separator splits each side.
pub proof fn lemma_split_on_join(a: Seq<char>, sep: char, b: Seq<char>)
    ensures
        split_on(a + seq![sep] + b, sep) == split_on(a, sep) + split_on(b, sep),
    decreases b.len(),
{
    let s = a + seq![sep] + b;
    if b.len() == 0 {
        assert(s.drop_last() =~= a);
        assert(split_on(b, sep) =~= seq![Seq::<char>::empty()]);
        assert(split_on(a, sep).push(seq![]) =~= split_on(a, sep) + split_on(b, sep));
    } else {
        let b0 = b.drop_last();
        lemma_split_on_join(a, sep, b0);
        assert(s.drop_last() =~= a + seq![sep] + b0);
        assert(s.last() == b.last());
        lemma_split_on_nonempty(b0, sep);
        let x = split_on(a, sep);
        let y = split_on(b0, sep);
        if b.last() == sep {
            assert((x + y).push(seq![]) =~= x + y.push(seq![]));
        } else {
            let yu = y.update(y.len() - 1, y.last().push(b.last()));
            assert((x + y).last() == y.last());
            assert((x + y).update((x + y).len() - 1, (x + y).last().push(b.last())) =~= x + yu);
        }
    }
}

/// A line without a newline or a trailing carriage return, followed by a
/// newline, is the first line of the text.
pub proof fn lemma_lines_of_first_line(x: Seq<char>, body: Seq<char>)
    requires
        !x.contains('\n'),
        x.len() == 0 || x.last() != '\r',
    ensures
        lines_of(x + seq!['\n'] + body) == seq![x] + lines_of(body),
{
    lemma_split_on_join(x, '\n', body);
    assert(split_on(x, '\n') == seq![x]) by {
        lemma_split_without_separator(x, '\n');
    }
    lemma_split_on_nonempty(body, '\n');
    let pieces = split_on(x + seq!['\n'] + body, '\n');
    let pb = split_on(body, '\n');
    assert(pieces =~= seq![x] + pb);
    assert(pieces.last() == pb.last());
    let kept_b = if pb.last().len() == 0 { pb.drop_last() } else { pb };
    let kept = if pieces.last().len() == 0 { pieces.drop_last() } else { pieces };
    assert(kept =~= seq![x] + kept_b);
    assert(strip_cr(x) == x);
    assert(kept.map_values(|l: Seq<char>| strip_cr(l)) =~= seq![x] + kept_b.map_values(|l: Seq<char>| strip_cr(l)));
}

/// Text without the separator is one piece.
pub proof fn lemma_split_without_separator(s: Seq<char>, sep: char)
    requires
        !s.contains(sep),
    ensures
        split_on(s, sep) == seq![s],
    decreases s.len(),
{
    if s.len() == 0 {
        assert(s =~= Seq::<char>::empty());
        assert(split_on(s, sep) =~= seq![s]);
    } else {
        assert(!s.drop_last().contains(sep)) by {
            if s.drop_last().contains(sep) {
                let i = choose|i: int| 0 <= i < s.drop_last().len() && s.drop_last()[i] == sep;
                assert(s[i] == sep);
            }
        }
        assert(s[s.len() - 1] == s.last());
        lemma_split_without_separator(s.drop_last(), sep);
        assert(s.drop_last().push(s.last()) =~= s);
        assert(seq![s.drop_last()].update(0, s.drop_last().push(s.last())) =~= seq![s]);
    }
}

} // verus!
