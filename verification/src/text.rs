//! Building text: decimal numbers and concatenation.

use vstd::prelude::*;
use vstd::string::StringExecFns;

verus! {

/// The decimal digit `d`.
pub open spec fn digit(d: nat) -> char {
    (48 + d) as char
}

/// Decimal notation of `n`, without leading zeros.
pub open spec fn digits(n: nat) -> Seq<char>
    decreases n,
{
    if n < 10 {
        seq![digit(n)]
    } else {
        digits(n / 10).push(digit(n % 10))
    }
}

/// The value that a decimal notation stands for.
pub open spec fn number(s: Seq<char>) -> nat
    decreases s.len(),
{
    if s.len() == 0 {
        0
    } else {
        number(s.drop_last()) * 10 + (s.last() as nat - 48) as nat
    }
}

/// Reading a number's decimal notation gives the number back.
pub proof fn digits_round_trip(n: nat)
    ensures
        number(digits(n)) == n,
    decreases n,
{
    if n < 10 {
        let s = digits(n);
        assert(s.drop_last() =~= Seq::<char>::empty());
        assert(number(s.drop_last()) == 0);
    } else {
        digits_round_trip(n / 10);
        let s = digits(n);
        assert(s.drop_last() =~= digits(n / 10));
    }
}

fn digit_of(d: u128) -> (c: char)
    requires
        d < 10,
    ensures
        c == digit(d as nat),
{
    match d {
        0 => '0',
        1 => '1',
        2 => '2',
        3 => '3',
        4 => '4',
        5 => '5',
        6 => '6',
        7 => '7',
        8 => '8',
        _ => '9',
    }
}

/// Appends one character: std's `String::push`, which appends the given
/// character to the end of the string.
#[verifier::external_body]
pub(crate) fn push_char(s: &mut String, c: char)
    ensures
        final(s)@ == old(s)@.push(c),
{
    s.push(c);
}

fn push_digits(s: &mut String, n: u128)
    ensures
        final(s)@ == old(s)@ + digits(n as nat),
    decreases n,
{
    if n >= 10 {
        push_digits(s, n / 10);
        push_char(s, digit_of(n % 10));
        assert(s@ =~= old(s)@ + digits(n as nat));
    } else {
        push_char(s, digit_of(n));
        assert(s@ =~= old(s)@ + digits(n as nat));
    }
}

/// Decimal notation of a number.
pub fn decimal(n: usize) -> (s: String)
    ensures
        s@ == digits(n as nat),
{
    let mut s: String = String::new();
    push_digits(&mut s, n as u128);
    assert(s@ =~= digits(n as nat));
    s
}

/// Decimal notation of a number of up to 128 bits.
pub fn decimal_wide(n: u128) -> (s: String)
    ensures
        s@ == digits(n as nat),
{
    let mut s: String = String::new();
    push_digits(&mut s, n);
    assert(s@ =~= digits(n as nat));
    s
}

/// Decimal notation of the sum of two numbers.
pub fn decimal_sum(a: usize, b: usize) -> (s: String)
    ensures
        s@ == digits(a as nat + b as nat),
{
    let mut s: String = String::new();
    push_digits(&mut s, a as u128 + b as u128);
    assert(s@ =~= digits(a as nat + b as nat));
    s
}

/// Decimal notation of an integer, with a minus sign below zero.
pub open spec fn signed_digits(n: int) -> Seq<char> {
    if n < 0 {
        seq!['-'] + digits((-n) as nat)
    } else {
        digits(n as nat)
    }
}

/// Decimal notation of an integer.
pub fn signed_decimal(n: i64) -> (s: String)
    ensures
        s@ == signed_digits(n as int),
{
    let mut s: String = String::new();
    if n < 0 {
        push_char(&mut s, '-');
        let m: u128 = (-(n as i128)) as u128;
        push_digits(&mut s, m);
    } else {
        push_digits(&mut s, n as u128);
    }
    assert(s@ =~= signed_digits(n as int));
    s
}

/// `a` followed by `b`.
pub fn concat2(a: &str, b: &str) -> (s: String)
    ensures
        s@ == a@ + b@,
{
    let mut s: String = a.to_owned();
    s.append(b);
    s
}

/// Three pieces in a row.
pub fn concat3(a: &str, b: &str, c: &str) -> (s: String)
    ensures
        s@ == a@ + b@ + c@,
{
    let mut s: String = concat2(a, b);
    s.append(c);
    s
}

/// Four pieces in a row.
pub fn concat4(a: &str, b: &str, c: &str, d: &str) -> (s: String)
    ensures
        s@ == a@ + b@ + c@ + d@,
{
    let mut s: String = concat3(a, b, c);
    s.append(d);
    s
}

/// Five pieces in a row.
pub fn concat5(a: &str, b: &str, c: &str, d: &str, e: &str) -> (s: String)
    ensures
        s@ == a@ + b@ + c@ + d@ + e@,
{
    let mut s: String = concat4(a, b, c, d);
    s.append(e);
    s
}

/// "`{a}{between}{b}{after}`" with two numbers, a frequent shape of messages.
pub fn counts_text(a: usize, between: &str, b: usize, after: &str) -> (s: String)
    ensures
        s@ == digits(a as nat) + between@ + digits(b as nat) + after@,
{
    let da: String = decimal(a);
    let db: String = decimal(b);
    concat4(da.as_str(), between, db.as_str(), after)
}

/// The characters of a string.
pub fn chars_of(s: &str) -> (v: Vec<char>)
    ensures
        v@ == s@,
{
    let mut v: Vec<char> = Vec::new();
    for c in it: s.chars()
        invariant
            v@ == s@.take(it.index() as int),
            it.seq() == s@,
    {
        v.push(c);
    }
    assert(s@.take(s@.len() as int) =~= s@);
    v
}

/// The string with these characters.
pub fn string_of(v: &Vec<char>) -> (s: String)
    ensures
        s@ == v@,
{
    let mut s: String = String::new();
    for i in 0..v.len()
        invariant
            s@ =~= v@.take(i as int),
    {
        push_char(&mut s, v[i]);
    }
    assert(v@.take(v.len() as int) =~= v@);
    s
}

/// Unicode white space.
pub open spec fn space(c: char) -> bool {
    let u = c as u32;
    ||| 0x9 <= u <= 0xD
    ||| u == 0x20
    ||| u == 0x85
    ||| u == 0xA0
    ||| u == 0x1680
    ||| 0x2000 <= u <= 0x200A
    ||| u == 0x2028
    ||| u == 0x2029
    ||| u == 0x202F
    ||| u == 0x205F
    ||| u == 0x3000
}

fn is_space(c: char) -> (b: bool)
    ensures
        b == space(c),
{
    let u: u32 = c as u32;
    (0x9 <= u && u <= 0xD) || u == 0x20 || u == 0x85 || u == 0xA0 || u == 0x1680 || (0x2000 <= u
        && u <= 0x200A) || u == 0x2028 || u == 0x2029 || u == 0x202F || u == 0x205F || u == 0x3000
}

/// `s` without white space in front.
pub open spec fn trimmed_start(s: Seq<char>) -> Seq<char>
    decreases s.len(),
{
    if s.len() > 0 && space(s[0]) {
        trimmed_start(s.drop_first())
    } else {
        s
    }
}

/// `s` without white space at the end.
pub open spec fn trimmed_end(s: Seq<char>) -> Seq<char>
    decreases s.len(),
{
    if s.len() > 0 && space(s.last()) {
        trimmed_end(s.drop_last())
    } else {
        s
    }
}

/// `s` without white space around it.
pub open spec fn trimmed(s: Seq<char>) -> Seq<char> {
    trimmed_end(trimmed_start(s))
}

/// Removes white space at both ends.
pub fn trim(s: &Vec<char>) -> (t: Vec<char>)
    ensures
        t@ == trimmed(s@),
{
    let mut lo: usize = 0;
    assert(s@.skip(0) =~= s@);
    while lo < s.len() && is_space(s[lo])
        invariant
            lo <= s.len(),
            trimmed_start(s@) == trimmed_start(s@.skip(lo as int)),
        decreases s.len() - lo,
    {
        assert(s@.skip(lo as int).drop_first() =~= s@.skip(lo + 1));
        lo = lo + 1;
    }
    let mut hi: usize = s.len();
    let ghost rest = s@.skip(lo as int);
    assert(rest =~= s@.subrange(lo as int, hi as int));
    while hi > lo && is_space(s[hi - 1])
        invariant
            lo <= hi <= s.len(),
            trimmed_end(rest) == trimmed_end(s@.subrange(lo as int, hi as int)),
        decreases hi,
    {
        assert(s@.subrange(lo as int, hi as int).drop_last() =~= s@.subrange(lo as int, hi - 1));
        hi = hi - 1;
    }
    let mut t: Vec<char> = Vec::new();
    for i in lo..hi
        invariant
            lo <= hi <= s.len(),
            t@ =~= s@.subrange(lo as int, i as int),
    {
        t.push(s[i]);
    }
    t
}

/// ASCII lower case of a character; others stay.
pub open spec fn lower(c: char) -> char {
    if 'A' <= c <= 'Z' {
        (c as u32 + 32) as char
    } else {
        c
    }
}

/// `s` with ASCII letters in lower case.
pub open spec fn lowered(s: Seq<char>) -> Seq<char> {
    s.map(|_i: int, c: char| lower(c))
}

/// Turns ASCII letters into lower case.
pub fn to_lower(s: &Vec<char>) -> (t: Vec<char>)
    ensures
        t@ == lowered(s@),
{
    let mut t: Vec<char> = Vec::new();
    for i in 0..s.len()
        invariant
            t@ =~= lowered(s@.take(i as int)),
    {
        let c: char = s[i];
        if 'A' <= c && c <= 'Z' {
            let d: char = (c as u8 + 32) as char;
            t.push(d);
        } else {
            t.push(c);
        }
    }
    assert(s@.take(s.len() as int) =~= s@);
    t
}

/// Whether the characters are exactly this text.
pub fn is_text(s: &Vec<char>, text: &str) -> (b: bool)
    ensures
        b == (s@ == text@),
{
    let t: Vec<char> = chars_of(text);
    if s.len() != t.len() {
        return false;
    }
    for i in 0..s.len()
        invariant
            s.len() == t.len(),
            t@ == text@,
            forall|j: int| 0 <= j < i ==> s@[j] == t@[j],
    {
        if s[i] != t[i] {
            return false;
        }
    }
    assert(s@ =~= t@);
    true
}

/// Whether two texts are equal up to the case of ASCII letters.
pub open spec fn same_ignoring_case(a: Seq<char>, b: Seq<char>) -> bool {
    lowered(a) == lowered(b)
}

/// The pieces of `s` between occurrences of `sep`; always at least one piece.
pub open spec fn pieces(s: Seq<char>, sep: char) -> Seq<Seq<char>>
    decreases s.len(),
{
    if s.len() == 0 {
        seq![Seq::<char>::empty()]
    } else {
        let before = pieces(s.drop_last(), sep);
        if s.last() == sep {
            before.push(Seq::empty())
        } else {
            before.drop_last().push(before.last().push(s.last()))
        }
    }
}

/// The views of a list of character lists.
pub open spec fn piece_texts(v: Seq<Vec<char>>) -> Seq<Seq<char>> {
    v.map(|_i: int, p: Vec<char>| p@)
}

/// Splits at every occurrence of `sep`.
pub fn split(s: &Vec<char>, sep: char) -> (out: Vec<Vec<char>>)
    ensures
        piece_texts(out@) == pieces(s@, sep),
        out.len() > 0,
{
    let mut out: Vec<Vec<char>> = Vec::new();
    let mut cur: Vec<char> = Vec::new();
    for i in 0..s.len()
        invariant
            piece_texts(out@).push(cur@) == pieces(s@.take(i as int), sep),
    {
        let ghost done = piece_texts(out@);
        let ghost c0 = cur@;
        assert(s@.take(i + 1).drop_last() =~= s@.take(i as int));
        if s[i] == sep {
            let mut fresh: Vec<char> = Vec::new();
            std::mem::swap(&mut cur, &mut fresh);
            out.push(fresh);
            assert(piece_texts(out@) =~= done.push(c0));
        } else {
            cur.push(s[i]);
            assert(done.push(c0).drop_last() =~= done);
        }
    }
    assert(s@.take(s.len() as int) =~= s@);
    let ghost done = piece_texts(out@);
    let ghost c0 = cur@;
    out.push(cur);
    assert(piece_texts(out@) =~= done.push(c0));
    out
}

/// Joining the pieces with the separator between them gives the text back.
pub open spec fn rejoined(parts: Seq<Seq<char>>, sep: char) -> Seq<char>
    decreases parts.len(),
{
    if parts.len() == 0 {
        Seq::empty()
    } else if parts.len() == 1 {
        parts[0]
    } else {
        rejoined(parts.drop_last(), sep).push(sep) + parts.last()
    }
}

/// Splitting loses nothing: the pieces, rejoined, are the text.
pub proof fn split_then_join(s: Seq<char>, sep: char)
    ensures
        pieces(s, sep).len() > 0,
        rejoined(pieces(s, sep), sep) == s,
    decreases s.len(),
{
    let p = pieces(s, sep);
    if s.len() == 0 {
        assert(rejoined(p, sep) =~= s);
    } else {
        let before = pieces(s.drop_last(), sep);
        split_then_join(s.drop_last(), sep);
        if s.last() == sep {
            assert(p.drop_last() =~= before);
            assert(rejoined(p, sep) =~= s.drop_last().push(sep));
        } else {
            let longer = before.last().push(s.last());
            assert(p =~= before.drop_last().push(longer));
            assert(p.drop_last() =~= before.drop_last());
            if before.len() == 1 {
                assert(p[0] =~= longer);
                assert(before[0] == s.drop_last());
                assert(rejoined(p, sep) =~= s);
            } else {
                assert(rejoined(before, sep) == rejoined(before.drop_last(), sep).push(sep)
                    + before.last());
                assert(rejoined(p, sep) =~= s.drop_last().push(s.last()));
            }
        }
        assert(s =~= s.drop_last().push(s.last()));
    }
}

/// Position of the first `c` in `s`.
pub fn find_char(s: &Vec<char>, c: char) -> (r: Option<usize>)
    ensures
        r is None <==> !s@.contains(c),
        r matches Some(i) ==> i < s.len() && s@[i as int] == c && forall|j: int|
            0 <= j < i ==> s@[j] != c,
{
    for i in 0..s.len()
        invariant
            forall|j: int| 0 <= j < i ==> s@[j] != c,
    {
        if s[i] == c {
            assert(s@.contains(c));
            return Some(i);
        }
    }
    None
}

/// Part of a list of characters.
pub fn part(s: &Vec<char>, lo: usize, hi: usize) -> (t: Vec<char>)
    requires
        lo <= hi <= s.len(),
    ensures
        t@ == s@.subrange(lo as int, hi as int),
{
    let mut t: Vec<char> = Vec::new();
    for i in lo..hi
        invariant
            lo <= hi <= s.len(),
            t@ =~= s@.subrange(lo as int, i as int),
    {
        t.push(s[i]);
    }
    t
}

/// Whether two texts are the same.
pub fn same_text(a: &str, b: &str) -> (r: bool)
    ensures
        r == (a@ == b@),
{
    is_text(&chars_of(a), b)
}

/// Texts in a row, separated by a comma and a space.
pub open spec fn listed(parts: Seq<Seq<char>>) -> Seq<char>
    decreases parts.len(),
{
    if parts.len() == 0 {
        Seq::empty()
    } else if parts.len() == 1 {
        parts[0]
    } else {
        listed(parts.drop_last()) + ", "@ + parts.last()
    }
}

/// The texts, as sequences of characters.
pub open spec fn texts_of(parts: Seq<String>) -> Seq<Seq<char>> {
    Seq::new(parts.len(), |i: int| parts[i]@)
}

/// Texts in a row, separated by a comma and a space.
pub fn list(parts: &Vec<String>) -> (s: String)
    ensures
        s@ == listed(texts_of(parts@)),
{
    let ghost all = texts_of(parts@);
    let mut s: String = String::new();
    for i in 0..parts.len()
        invariant
            all == texts_of(parts@),
            s@ == listed(all.take(i as int)),
    {
        if i > 0 {
            s.append(", ");
        }
        s.append(parts[i].as_str());
        assert(all.take(i + 1).drop_last() =~= all.take(i as int));
        assert(s@ =~= listed(all.take(i + 1)));
    }
    assert(all.take(parts.len() as int) =~= all);
    s
}

/// A text occurs in another.
pub open spec fn occurs(part: Seq<char>, s: Seq<char>) -> bool {
    exists|i: int|
        0 <= i <= s.len() - part.len() && #[trigger] s.subrange(i, i + part.len()) == part
}

/// Whether a text occurs in another.
pub fn contains_text(s: &str, part: &str) -> (r: bool)
    ensures
        r == occurs(part@, s@),
{
    let text: Vec<char> = chars_of(s);
    let p: Vec<char> = chars_of(part);
    let n: usize = text.len();
    let m: usize = p.len();
    if m == 0 {
        assert(s@.subrange(0int, 0int + part@.len()) =~= part@);
        return true;
    }
    if m > n {
        return false;
    }
    for i in 0..n - m + 1
        invariant
            text@ == s@,
            p@ == part@,
            n == s@.len(),
            m == part@.len(),
            0 < m <= n,
            forall|k: int| 0 <= k < i ==> #[trigger] s@.subrange(k, k + part@.len()) != part@,
    {
        let mut same: bool = true;
        for j in 0..m
            invariant
                text@ == s@,
                p@ == part@,
                n == s@.len(),
                m == part@.len(),
                i + m <= n,
                same <==> forall|k: int| 0 <= k < j ==> s@[i + k] == #[trigger] part@[k],
        {
            if text[i + j] != p[j] {
                assert(s@[i + j] != part@[j as int]);
                same = false;
            }
        }
        if same {
            assert(s@.subrange(i as int, i + part@.len()) =~= part@);
            return true;
        }
        proof {
            let k = choose|k: int| 0 <= k < m && s@[i + k] != #[trigger] part@[k];
            assert(s@.subrange(i as int, i + part@.len())[k] == s@[i + k]);
        }
    }
    false
}

} // verus!
