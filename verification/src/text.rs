//! Character and string helpers shared by the lexer, parser and serializer.

use vstd::prelude::*;
use vstd::std_specs::iter::IteratorSpec;

verus! {

/// The character of a decimal digit `d < 10`.
pub open spec fn digit_char(d: nat) -> char {
    (48 + d) as char
}

/// Decimal representation of a natural number, most significant digit first.
pub open spec fn decimal(n: nat) -> Seq<char>
    decreases n,
{
    if n < 10 {
        seq![digit_char(n)]
    } else {
        decimal(n / 10).push(digit_char(n % 10))
    }
}

/// Appends one character to a string: calls std's `String::push`, whose
/// contract here is that the new contents are the old ones followed by `c`.
#[verifier::external_body]
pub(crate) fn push_char(s: &mut String, c: char)
    ensures
        final(s)@ == old(s)@.push(c),
{
    s.push(c);
}

/// Appends the decimal representation of `n` to `out`.
pub fn push_decimal(out: &mut String, n: usize)
    ensures
        final(out)@ == old(out)@ + decimal(n as nat),
    decreases n,
{
    if n >= 10 {
        push_decimal(out, n / 10);
    }
    let d: u8 = (n % 10) as u8;
    let c: char = (48u8 + d) as char;
    push_char(out, c);
    proof {
        assert(c == digit_char((n % 10) as nat));
    }
}


/// The characters of a string slice, in order.
pub fn chars_of(s: &str) -> (v: Vec<char>)
    ensures
        v@ == s@,
{
    broadcast use vstd::string::group_string_axioms;

    let mut it = s.chars();
    let mut v: Vec<char> = Vec::new();
    loop
        invariant
            v@ + it.remaining() == s@,
            it.decrease() is Some,
        decreases it.decrease()->0,
    {
        let ghost before = it.remaining();
        match it.next() {
            Some(c) => {
                assert(v@.push(c) + it.remaining() =~= v@ + before);
                v.push(c);
            },
            None => {
                assert(v@ =~= s@);
                return v;
            },
        }
    }
}


/// A character in the Unicode general category Cc (C0 and C1 controls, DEL).
pub open spec fn is_control(c: char) -> bool {
    (c as u32) < 0x20 || (0x7f <= (c as u32) && (c as u32) <= 0x9f)
}

pub fn is_control_char(c: char) -> (b: bool)
    ensures
        b == is_control(c),
{
    let u = c as u32;
    u < 0x20 || (0x7f <= u && u <= 0x9f)
}

pub open spec fn is_ascii_alpha(c: char) -> bool {
    ('a' <= c && c <= 'z') || ('A' <= c && c <= 'Z')
}

pub open spec fn is_ascii_alnum(c: char) -> bool {
    is_ascii_alpha(c) || ('0' <= c && c <= '9')
}

/// The characters `from..to` of `v` as a string.
pub fn string_from_chars(v: &Vec<char>, from: usize, to: usize) -> (s: String)
    requires
        from <= to <= v@.len(),
    ensures
        s@ == v@.subrange(from as int, to as int),
{
    let mut s = String::new();
    let mut k = from;
    while k < to
        invariant
            from <= k <= to <= v@.len(),
            s@ == v@.subrange(from as int, k as int),
        decreases to - k,
    {
        push_char(&mut s, v[k]);
        assert(v@.subrange(from as int, k as int).push(v@[k as int]) =~= v@.subrange(
            from as int,
            k + 1,
        ));
        k = k + 1;
    }
    s
}

/// `prefix + decimal(line) + ", column " + decimal(col)`.
pub open spec fn at_position(prefix: Seq<char>, line: nat, col: nat) -> Seq<char> {
    prefix + " at line "@ + decimal(line) + ", column "@ + decimal(col)
}

pub fn position_message(prefix: &str, line: usize, col: usize) -> (s: String)
    ensures
        s@ == at_position(prefix@, line as nat, col as nat),
{
    let mut s = String::from_str(prefix);
    s.append(" at line ");
    push_decimal(&mut s, line);
    s.append(", column ");
    push_decimal(&mut s, col);
    s
}


pub open spec fn strings_model(v: Seq<String>) -> Seq<Seq<char>> {
    Seq::new(v.len(), |i: int| v[i]@)
}

pub proof fn lemma_strings_model_push(v: Seq<String>, x: String)
    ensures
        strings_model(v.push(x)) == strings_model(v).push(x@),
{
    assert(strings_model(v.push(x)) =~= strings_model(v).push(x@));
}

/// The parts joined with `sep` between consecutive parts.
pub open spec fn join(parts: Seq<Seq<char>>, sep: Seq<char>) -> Seq<char>
    decreases parts.len(),
{
    if parts.len() == 0 {
        Seq::empty()
    } else if parts.len() == 1 {
        parts[0]
    } else {
        join(parts.drop_last(), sep) + sep + parts.last()
    }
}

/// Joins strings with a separator (std's `[String]::join`).
pub fn join_strings(parts: &Vec<String>, sep: &str) -> (r: String)
    ensures
        r@ == join(strings_model(parts@), sep@),
{
    let mut r = String::new();
    let ghost m = strings_model(parts@);
    let mut i: usize = 0;
    while i < parts.len()
        invariant
            i <= parts.len(),
            m == strings_model(parts@),
            r@ == join(m.take(i as int), sep@),
        decreases parts.len() - i,
    {
        assert(m.take(i + 1).drop_last() =~= m.take(i as int));
        if i > 0 {
            r.append(sep);
        }
        r.append(parts[i].as_str());
        if i == 0 {
            assert(r@ =~= join(m.take(1), sep@));
        }
        i = i + 1;
    }
    assert(m.take(parts.len() as int) =~= m);
    r
}

/// Unicode `White_Space` (std's `char::is_whitespace`).
pub open spec fn is_whitespace(c: char) -> bool {
    let u = c as u32;
    (0x09 <= u && u <= 0x0d) || u == 0x20 || u == 0x85 || u == 0xa0 || u == 0x1680 || (0x2000
        <= u && u <= 0x200a) || u == 0x2028 || u == 0x2029 || u == 0x202f || u == 0x205f || u
        == 0x3000
}

pub fn is_whitespace_char(c: char) -> (b: bool)
    ensures
        b == is_whitespace(c),
{
    let u = c as u32;
    (0x09 <= u && u <= 0x0d) || u == 0x20 || u == 0x85 || u == 0xa0 || u == 0x1680 || (0x2000
        <= u && u <= 0x200a) || u == 0x2028 || u == 0x2029 || u == 0x202f || u == 0x205f || u
        == 0x3000
}

/// `s` without leading whitespace.
pub open spec fn trim_start(s: Seq<char>) -> Seq<char>
    decreases s.len(),
{
    if s.len() > 0 && is_whitespace(s[0]) {
        trim_start(s.drop_first())
    } else {
        s
    }
}

/// `s` without trailing whitespace.
pub open spec fn trim_end(s: Seq<char>) -> Seq<char>
    decreases s.len(),
{
    if s.len() > 0 && is_whitespace(s.last()) {
        trim_end(s.drop_last())
    } else {
        s
    }
}

/// `s` without leading and trailing whitespace (std's `str::trim`).
pub open spec fn trim(s: Seq<char>) -> Seq<char> {
    trim_end(trim_start(s))
}

pub proof fn lemma_trim_start_from(s: Seq<char>, a: int)
    requires
        0 <= a <= s.len(),
        forall|k: int| 0 <= k < a ==> is_whitespace(#[trigger] s[k]),
    ensures
        trim_start(s) == trim_start(s.subrange(a, s.len() as int)),
    decreases a,
{
    if a > 0 {
        assert(s.drop_first().subrange(a - 1, s.drop_first().len() as int) =~= s.subrange(
            a,
            s.len() as int,
        ));
        lemma_trim_start_from(s.drop_first(), a - 1);
    } else {
        assert(s.subrange(0, s.len() as int) =~= s);
    }
}

pub proof fn lemma_trim_end_to(s: Seq<char>, b: int)
    requires
        0 <= b <= s.len(),
        forall|k: int| b <= k < s.len() ==> is_whitespace(#[trigger] s[k]),
    ensures
        trim_end(s) == trim_end(s.subrange(0, b)),
    decreases s.len() - b,
{
    if b < s.len() {
        assert(s.drop_last().subrange(0, b) =~= s.subrange(0, b));
        lemma_trim_end_to(s.drop_last(), b);
    } else {
        assert(s.subrange(0, s.len() as int) =~= s);
    }
}

/// Every character of `s` is whitespace.
pub open spec fn all_whitespace(s: Seq<char>) -> bool {
    forall|k: int| 0 <= k < s.len() ==> is_whitespace(#[trigger] s[k])
}

/// `s` neither starts nor ends with whitespace.
pub open spec fn trimmed(s: Seq<char>) -> bool {
    s.len() == 0 || (!is_whitespace(s[0]) && !is_whitespace(s.last()))
}

/// Trimming removes exactly the whitespace padding around a trimmed text.
pub proof fn lemma_trim_padded(a: Seq<char>, x: Seq<char>, b: Seq<char>)
    requires
        all_whitespace(a),
        all_whitespace(b),
        trimmed(x),
    ensures
        trim(a + x + b) == x,
{
    let s = a + x + b;
    assert forall|k: int| 0 <= k < a.len() implies is_whitespace(#[trigger] s[k]) by {
        assert(s[k] == a[k]);
    }
    lemma_trim_start_from(s, a.len() as int);
    let xb = x + b;
    assert(s.subrange(a.len() as int, s.len() as int) =~= xb);
    if x.len() > 0 {
        assert(trim_start(xb) == xb);
        assert forall|k: int| x.len() <= k < xb.len() implies is_whitespace(#[trigger] xb[k]) by {
            assert(xb[k] == b[k - x.len()]);
        }
        lemma_trim_end_to(xb, x.len() as int);
        assert(xb.subrange(0, x.len() as int) =~= x);
        assert(trim_end(x) == x);
    } else {
        assert(xb =~= b);
        lemma_trim_start_from(b, b.len() as int);
        assert(b.subrange(b.len() as int, b.len() as int) =~= Seq::<char>::empty());
        assert(trim_start(Seq::<char>::empty()) == Seq::<char>::empty());
        assert(x =~= Seq::<char>::empty());
    }
}

/// Trims the characters `from..to` of `v`.
pub fn trim_chars(v: &Vec<char>, from: usize, to: usize) -> (r: String)
    requires
        from <= to <= v@.len(),
    ensures
        r@ == trim(v@.subrange(from as int, to as int)),
{
    let ghost w = v@.subrange(from as int, to as int);
    let mut a = from;
    while a < to && is_whitespace_char(v[a])
        invariant
            from <= a <= to <= v@.len(),
            forall|k: int| from <= k < a ==> is_whitespace(#[trigger] v@[k]),
        decreases to - a,
    {
        a = a + 1;
    }
    proof {
        assert forall|k: int| 0 <= k < a - from implies is_whitespace(#[trigger] w[k]) by {
            assert(w[k] == v@[from + k]);
        }
        lemma_trim_start_from(w, a - from);
        assert(w.subrange(a - from, w.len() as int) =~= v@.subrange(a as int, to as int));
    }
    let mut b = to;
    while b > a && is_whitespace_char(v[b - 1])
        invariant
            from <= a <= b <= to <= v@.len(),
            forall|k: int| b <= k < to ==> is_whitespace(#[trigger] v@[k]),
        decreases b - a,
    {
        b = b - 1;
    }
    proof {
        let u = v@.subrange(a as int, to as int);
        assert forall|k: int| b - a <= k < u.len() implies is_whitespace(#[trigger] u[k]) by {
            assert(u[k] == v@[a + k]);
        }
        lemma_trim_end_to(u, b - a);
        assert(u.subrange(0, b - a) =~= v@.subrange(a as int, b as int));
        if b > a {
            assert(!is_whitespace(v@[a as int]));
            assert(trim_start(v@.subrange(a as int, b as int)) == v@.subrange(a as int, b as int));
            assert(v@.subrange(a as int, b as int).last() == v@[b - 1]);
        } else {
            assert(v@.subrange(a as int, b as int) =~= Seq::<char>::empty());
        }
    }
    string_from_chars(v, a, b)
}

/// Trims a string (std's `str::trim`).
pub fn trim_str(s: &str) -> (r: String)
    ensures
        r@ == trim(s@),
{
    let v = chars_of(s);
    assert(v@.subrange(0, v@.len() as int) =~= v@);
    trim_chars(&v, 0, v.len())
}

/// ASCII lowercase of one character.
pub open spec fn ascii_lower(c: char) -> char {
    if 'A' <= c && c <= 'Z' {
        ((c as u32) + 32) as char
    } else {
        c
    }
}

/// ASCII case-insensitive equality (std's `str::eq_ignore_ascii_case`).
pub open spec fn eq_ignore_ascii_case(a: Seq<char>, b: Seq<char>) -> bool {
    a.len() == b.len() && forall|k: int| 0 <= k < a.len() ==> ascii_lower(#[trigger] a[k]) == ascii_lower(b[k])
}

fn ascii_lower_exec(c: char) -> (r: char)
    ensures
        r == ascii_lower(c),
{
    if 'A' <= c && c <= 'Z' {
        ((c as u8) + 32) as char
    } else {
        c
    }
}

pub fn eq_ignore_ascii_case_str(a: &str, b: &str) -> (r: bool)
    ensures
        r == eq_ignore_ascii_case(a@, b@),
{
    let va = chars_of(a);
    let vb = chars_of(b);
    if va.len() != vb.len() {
        return false;
    }
    let mut k: usize = 0;
    while k < va.len()
        invariant
            va@ == a@,
            vb@ == b@,
            va@.len() == vb@.len(),
            k <= va@.len(),
            forall|m: int| 0 <= m < k ==> ascii_lower(#[trigger] a@[m]) == ascii_lower(b@[m]),
        decreases va.len() - k,
    {
        if ascii_lower_exec(va[k]) != ascii_lower_exec(vb[k]) {
            return false;
        }
        k = k + 1;
    }
    true
}

/// ASCII lowercase of a string: each `A`–`Z` becomes `a`–`z`, every other
/// character stays as it is.
pub open spec fn ascii_lowercase(s: Seq<char>) -> Seq<char> {
    Seq::new(s.len(), |i: int| ascii_lower(s[i]))
}

/// Lowercasing the ASCII letters twice changes nothing more.
pub proof fn lemma_ascii_lowercase_idempotent(s: Seq<char>)
    ensures
        ascii_lowercase(ascii_lowercase(s)) == ascii_lowercase(s),
{
    assert forall|i: int| 0 <= i < s.len() implies ascii_lower(ascii_lower(s[i])) == ascii_lower(s[i]) by {
        let c = s[i];
        if 'A' <= c && c <= 'Z' {
            assert('a' <= ascii_lower(c) && ascii_lower(c) <= 'z');
        }
    }
    assert(ascii_lowercase(ascii_lowercase(s)) =~= ascii_lowercase(s));
}

/// std's `str::to_ascii_lowercase`: a copy of `s` in which each ASCII letter
/// `A`–`Z` is mapped to `a`–`z` and every other character is unchanged, as
/// its documentation states.
#[verifier::external_body]
pub(crate) fn to_ascii_lowercase(s: &str) -> (r: String)
    ensures
        r@ == ascii_lowercase(s@),
{
    s.to_ascii_lowercase()
}

/// What std's `str::to_lowercase` returns for a string (Unicode lowercase mapping).
pub uninterp spec fn lowercase(s: Seq<char>) -> Seq<char>;

/// std's `str::to_lowercase`: the Unicode lowercase equivalent of `s`,
/// a function of `s` alone; nothing else about the mapping is stated.
#[verifier::external_body]
pub(crate) fn to_lowercase(s: &str) -> (r: String)
    ensures
        r@ == lowercase(s@),
{
    s.to_lowercase()
}

/// What `format!("{:?}", s)` produces for a string: the quoted, escaped form.
pub uninterp spec fn debug_text(s: Seq<char>) -> Seq<char>;

/// std's `Debug` formatting of a string slice, a function of `s` alone;
/// the escaping rules are not stated.
#[verifier::external_body]
pub(crate) fn debug_string(s: &str) -> (r: String)
    ensures
        r@ == debug_text(s@),
{
    format!("{:?}", s)
}

} // verus!
