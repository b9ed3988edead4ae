//! Character level reading of text: lines, words, substrings, byte slices and numbers.
use vstd::prelude::*;

verus! {

/// The characters of a string slice, in order.
pub fn chars_of(s: &str) -> (v: Vec<char>)
    ensures
        v@ == s@,
{
    let mut v: Vec<char> = Vec::new();
    for c in it: s.chars()
        invariant
            v@ == it.seq().take(it.index() as int),
            it.seq() == s@,
    {
        v.push(c);
    }
    v
}

/// Unicode white space, as `char::is_whitespace` defines it.
pub open spec fn is_space(c: char) -> bool {
    let u = c as u32;
    ||| 0x09 <= u <= 0x0D
    ||| u == 0x20
    ||| u == 0x85
    ||| u == 0xA0
    ||| u == 0x1680
    ||| 0x2000 <= u <= 0x200A
    ||| u == 0x2028
    ||| u == 0x2029
    ||| u == 0x202F
    ||| u == 0x205F
    ||| u == 0x3000
}

pub fn is_space_char(c: char) -> (b: bool)
    ensures
        b == is_space(c),
{
    let u = c as u32;
    (0x09 <= u && u <= 0x0D) || u == 0x20 || u == 0x85 || u == 0xA0 || u == 0x1680 || (0x2000 <= u
        && u <= 0x200A) || u == 0x2028 || u == 0x2029 || u == 0x202F || u == 0x205F || u == 0x3000
}

/// The words of a text: its maximal runs of characters that are not white space,
/// in order, as `str::split_whitespace` yields them.
pub open spec fn words(s: Seq<char>) -> Seq<Seq<char>>
    decreases s.len(),
{
    if s.len() == 0 {
        seq![]
    } else {
        let w = words(s.drop_last());
        let c = s.last();
        if is_space(c) {
            w
        } else if s.len() >= 2 && !is_space(s[s.len() - 2]) {
            w.update(w.len() - 1, w.last().push(c))
        } else {
            w.push(seq![c])
        }
    }
}

/// The character sequences held by a vector of character vectors.
pub open spec fn views(v: Seq<Vec<char>>) -> Seq<Seq<char>> {
    v.map_values(|w: Vec<char>| w@)
}

/// The words of `s`.
pub fn split_words(s: &Vec<char>) -> (r: Vec<Vec<char>>)
    ensures
        views(r@) == words(s@),
{
    let mut done: Vec<Vec<char>> = Vec::new();
    let mut cur: Vec<char> = Vec::new();
    let mut in_word = false;
    let n = s.len();
    let mut i: usize = 0;
    while i < n
        invariant
            n == s.len(),
            0 <= i <= n,
            in_word == (i > 0 && !is_space(s@[i - 1])),
            in_word ==> words(s@.take(i as int)) == views(done@).push(cur@),
            !in_word ==> words(s@.take(i as int)) == views(done@),
            !in_word ==> cur@.len() == 0,
        decreases n - i,
    {
        let c = s[i];
        assert(s@.take(i + 1).drop_last() == s@.take(i as int));
        if is_space_char(c) {
            if in_word {
                let ghost prev = done@;
                let w = cur;
                done.push(w);
                cur = Vec::new();
                assert(views(done@) =~= views(prev).push(w@));
            }
            in_word = false;
        } else {
            let ghost prev = cur@;
            cur.push(c);
            if !in_word {
                assert(cur@ =~= seq![c]);
            }
            in_word = true;
        }
        i = i + 1;
    }
    assert(s@.take(n as int) == s@);
    if in_word {
        let ghost prev = done@;
        let w = cur;
        done.push(w);
        assert(views(done@) =~= views(prev).push(w@));
    }
    done
}


/// `s` begins with `p`.
pub open spec fn starts_with(s: Seq<char>, p: Seq<char>) -> bool {
    p.len() <= s.len() && s.take(p.len() as int) == p
}

/// `p` occurs in `s` at position `k`.
pub open spec fn occurs_at(s: Seq<char>, p: Seq<char>, k: int) -> bool {
    0 <= k && k + p.len() <= s.len() && s.subrange(k, k + p.len()) == p
}

/// `p` occurs somewhere in `s`.
pub open spec fn contains(s: Seq<char>, p: Seq<char>) -> bool {
    exists|k: int| occurs_at(s, p, k)
}

/// Whether `p` occurs in `s` at position `k`.
pub fn matches_at(s: &Vec<char>, p: &Vec<char>, k: usize) -> (b: bool)
    requires
        k + p.len() <= s.len(),
    ensures
        b == occurs_at(s@, p@, k as int),
{
    let m = p.len();
    let mut j: usize = 0;
    while j < m
        invariant
            m == p.len(),
            k + m <= s.len(),
            0 <= j <= m,
            forall|t: int| 0 <= t < j ==> s@[k + t] == p@[t],
        decreases m - j,
    {
        if s[k + j] != p[j] {
            assert(s@.subrange(k as int, k + m)[j as int] != p@[j as int]);
            return false;
        }
        j = j + 1;
    }
    assert(s@.subrange(k as int, k + m) =~= p@);
    true
}

/// Whether `s` begins with `p`.
pub fn has_prefix(s: &Vec<char>, p: &Vec<char>) -> (b: bool)
    ensures
        b == starts_with(s@, p@),
{
    if p.len() > s.len() {
        return false;
    }
    let r = matches_at(s, p, 0);
    assert(s@.subrange(0, p@.len() as int) == s@.take(p@.len() as int));
    r
}

/// Whether `p` occurs somewhere in `s`.
pub fn has_substring(s: &Vec<char>, p: &Vec<char>) -> (b: bool)
    ensures
        b == contains(s@, p@),
{
    let n = s.len();
    let m = p.len();
    if m > n {
        assert forall|k: int| !occurs_at(s@, p@, k) by {}
        return false;
    }
    let mut k: usize = 0;
    loop
        invariant
            n == s.len(),
            m == p.len(),
            m <= n,
            0 <= k <= n - m,
            forall|t: int| 0 <= t < k ==> !occurs_at(s@, p@, t),
        decreases n - m - k,
    {
        if matches_at(s, p, k) {
            return true;
        }
        if k == n - m {
            assert forall|t: int| !occurs_at(s@, p@, t) by {
                if 0 <= t < k {
                }
            }
            return false;
        }
        k = k + 1;
    }
}

/// Whether two character vectors hold the same text.
pub fn same_text(a: &Vec<char>, b: &Vec<char>) -> (r: bool)
    ensures
        r == (a@ == b@),
{
    if a.len() != b.len() {
        return false;
    }
    let r = matches_at(a, b, 0);
    assert(a@.subrange(0, b@.len() as int) =~= a@);
    r
}


/// Why text is not an unsigned integer, as `core::num::IntErrorKind` tells it.
#[derive(Debug, Clone, Copy, PartialEq, Eq)]
pub enum IntErrorKind {
    Empty,
    InvalidDigit,
    PosOverflow,
}

/// The message that `core::num::ParseIntError` displays for each kind.
pub open spec fn int_error_message(k: IntErrorKind) -> Seq<char> {
    match k {
        IntErrorKind::Empty => "cannot parse integer from empty string"@,
        IntErrorKind::InvalidDigit => "invalid digit found in string"@,
        IntErrorKind::PosOverflow => "number too large to fit in target type"@,
    }
}

/// The message of a failed parse.
pub fn int_error_text(k: IntErrorKind) -> (r: String)
    ensures
        r@ == int_error_message(k),
{
    match k {
        IntErrorKind::Empty => String::from_str("cannot parse integer from empty string"),
        IntErrorKind::InvalidDigit => String::from_str("invalid digit found in string"),
        IntErrorKind::PosOverflow => String::from_str("number too large to fit in target type"),
    }
}

/// The value of an ASCII decimal digit.
pub open spec fn digit_value(c: char) -> Option<nat> {
    if '0' <= c <= '9' {
        Some((c as u32 - '0' as u32) as nat)
    } else {
        None
    }
}

/// Reads the decimal digits `d` from the left onto `acc`, failing on the first character
/// that is no digit or on the first digit that takes the value above `max`.
pub open spec fn read_digits(d: Seq<char>, acc: nat, max: nat) -> Result<nat, IntErrorKind>
    decreases d.len(),
{
    if d.len() == 0 {
        Ok(acc)
    } else {
        match digit_value(d[0]) {
            None => Err(IntErrorKind::InvalidDigit),
            Some(v) => if acc * 10 + v > max {
                Err(IntErrorKind::PosOverflow)
            } else {
                read_digits(d.drop_first(), acc * 10 + v, max)
            },
        }
    }
}

/// An unsigned integer no greater than `max` read from `s` as `str::parse` reads one:
/// an optional `+`, then at least one decimal digit.
pub open spec fn parse_unsigned(s: Seq<char>, max: nat) -> Result<nat, IntErrorKind> {
    if s.len() == 0 {
        Err(IntErrorKind::Empty)
    } else if s[0] == '+' {
        if s.len() == 1 {
            Err(IntErrorKind::InvalidDigit)
        } else {
            read_digits(s.drop_first(), 0, max)
        }
    } else {
        read_digits(s, 0, max)
    }
}

/// Reads an unsigned integer no greater than `max` from `s`.
pub fn parse_unsigned_text(s: &Vec<char>, max: u32) -> (r: Result<u32, IntErrorKind>)
    requires
        max <= 0xFFFF,
    ensures
        match r {
            Ok(v) => parse_unsigned(s@, max as nat) == Ok::<nat, IntErrorKind>(v as nat),
            Err(k) => parse_unsigned(s@, max as nat) == Err::<nat, IntErrorKind>(k),
        },
        r matches Ok(v) ==> v <= max,
{
    let n = s.len();
    if n == 0 {
        return Err(IntErrorKind::Empty);
    }
    let mut i: usize = 0;
    if s[0] == '+' {
        if n == 1 {
            return Err(IntErrorKind::InvalidDigit);
        }
        i = 1;
    }
    let ghost d = s@.skip(i as int);
    assert(i == 1 ==> d == s@.drop_first());
    assert(i == 0 ==> d == s@);
    assert(parse_unsigned(s@, max as nat) == read_digits(d, 0, max as nat));
    let mut acc: u32 = 0;
    while i < n
        invariant
            parse_unsigned(s@, max as nat) == read_digits(d, 0, max as nat),
            n == s.len(),
            0 < n,
            1 <= n ==> i <= n,
            acc <= max,
            max <= 0xFFFF,
            read_digits(d, 0, max as nat) == read_digits(s@.skip(i as int), acc as nat, max as nat),
        decreases n - i,
    {
        let c = s[i];
        assert(s@.skip(i as int)[0] == c);
        assert(s@.skip(i as int).drop_first() =~= s@.skip(i + 1));
        if c < '0' || c > '9' {
            return Err(IntErrorKind::InvalidDigit);
        }
        let v = (c as u32) - ('0' as u32);
        let next = acc * 10 + v;
        if next > max {
            return Err(IntErrorKind::PosOverflow);
        }
        acc = next;
        i = i + 1;
    }
    assert(s@.skip(i as int).len() == 0);
    Ok(acc)
}


/// The number of bytes that UTF-8 takes for a character.
pub open spec fn char_width(c: char) -> nat {
    let u = c as u32;
    if u < 0x80 {
        1
    } else if u < 0x800 {
        2
    } else if u < 0x10000 {
        3
    } else {
        4
    }
}

/// The number of bytes that UTF-8 takes for a text: what `str::len` returns.
pub open spec fn byte_len(s: Seq<char>) -> nat
    decreases s.len(),
{
    if s.len() == 0 {
        0
    } else {
        byte_len(s.drop_last()) + char_width(s.last())
    }
}

/// Byte offset `b` of `s` falls before its character `k` (or at its end, for `k == s.len()`).
pub open spec fn boundary_at(s: Seq<char>, b: int, k: int) -> bool {
    0 <= k <= s.len() && byte_len(s.take(k)) == b
}

/// Byte offset `b` of `s` is a character boundary within it.
pub open spec fn is_boundary(s: Seq<char>, b: int) -> bool {
    exists|k: int| boundary_at(s, b, k)
}

/// The character that byte offset `b` of `s` falls before.
pub open spec fn char_index(s: Seq<char>, b: int) -> int {
    choose|k: int| boundary_at(s, b, k)
}

/// The text between byte offsets `a` and `b` of `s`, as `&s[a..b]` gives it; `None` where
/// that expression panics (an offset out of order, past the end, or inside a character).
pub open spec fn byte_slice(s: Seq<char>, a: int, b: int) -> Option<Seq<char>> {
    if a <= b && is_boundary(s, a) && is_boundary(s, b) {
        Some(s.subrange(char_index(s, a), char_index(s, b)))
    } else {
        None
    }
}

/// Longer prefixes take more bytes.
pub proof fn lemma_byte_len_prefix_grows(s: Seq<char>, i: int, j: int)
    requires
        0 <= i < j <= s.len(),
    ensures
        byte_len(s.take(i)) < byte_len(s.take(j)),
    decreases j - i,
{
    assert(s.take(j).drop_last() =~= s.take(j - 1));
    if i < j - 1 {
        lemma_byte_len_prefix_grows(s, i, j - 1);
    }
}

/// A byte offset falls before one character at most.
pub proof fn lemma_boundary_unique(s: Seq<char>, b: int, k1: int, k2: int)
    requires
        boundary_at(s, b, k1),
        boundary_at(s, b, k2),
    ensures
        k1 == k2,
{
    if k1 < k2 {
        lemma_byte_len_prefix_grows(s, k1, k2);
    } else if k2 < k1 {
        lemma_byte_len_prefix_grows(s, k2, k1);
    }
}

/// The number of bytes of a character.
pub fn char_width_of(c: char) -> (w: u8)
    ensures
        w as nat == char_width(c),
{
    let u = c as u32;
    if u < 0x80 {
        1
    } else if u < 0x800 {
        2
    } else if u < 0x10000 {
        3
    } else {
        4
    }
}

/// The number of bytes of a text.
pub fn byte_length(s: &Vec<char>) -> (r: u128)
    ensures
        r as nat == byte_len(s@),
{
    let n = s.len();
    let mut acc: u128 = 0;
    let mut k: usize = 0;
    while k < n
        invariant
            n == s.len(),
            0 <= k <= n,
            acc == byte_len(s@.take(k as int)),
            acc <= 4 * k,
        decreases n - k,
    {
        assert(s@.take(k + 1).drop_last() =~= s@.take(k as int));
        acc = acc + char_width_of(s[k]) as u128;
        k = k + 1;
    }
    assert(s@.take(n as int) =~= s@);
    acc
}

/// The character that byte offset `b` falls before, where `b` is a boundary of `s`.
pub fn char_index_at(s: &Vec<char>, b: usize) -> (r: Option<usize>)
    ensures
        r matches Some(k) ==> boundary_at(s@, b as int, k as int) && char_index(s@, b as int) == k,
        r is None ==> !is_boundary(s@, b as int),
{
    let n = s.len();
    let mut acc: u128 = 0;
    let mut k: usize = 0;
    while k < n && acc < b as u128
        invariant
            n == s.len(),
            0 <= k <= n,
            acc == byte_len(s@.take(k as int)),
            acc <= 4 * k,
            forall|t: int| 0 <= t < k ==> byte_len(#[trigger] s@.take(t)) < b,
        decreases n - k,
    {
        assert(s@.take(k + 1).drop_last() =~= s@.take(k as int));
        acc = acc + char_width_of(s[k]) as u128;
        k = k + 1;
    }
    if acc == b as u128 {
        proof {
            assert(boundary_at(s@, b as int, k as int));
            let c = char_index(s@, b as int);
            lemma_boundary_unique(s@, b as int, c, k as int);
        }
        Some(k)
    } else {
        assert forall|t: int| !boundary_at(s@, b as int, t) by {
            if 0 <= t < k {
            } else if k < t <= n {
                lemma_byte_len_prefix_grows(s@, k as int, t);
            }
        }
        None
    }
}

/// The characters of `s` from index `i` up to index `j`.
pub fn sub_text(s: &Vec<char>, i: usize, j: usize) -> (r: Vec<char>)
    requires
        i <= j <= s.len(),
    ensures
        r@ == s@.subrange(i as int, j as int),
{
    let mut r: Vec<char> = Vec::new();
    let mut k = i;
    while k < j
        invariant
            i <= k <= j <= s.len(),
            r@ == s@.subrange(i as int, k as int),
        decreases j - k,
    {
        r.push(s[k]);
        k = k + 1;
        assert(r@ =~= s@.subrange(i as int, k as int));
    }
    r
}

/// The text between byte offsets `a` and `b`; `None` where `&s[a..b]` would panic.
pub fn slice_bytes(s: &Vec<char>, a: usize, b: usize) -> (r: Option<Vec<char>>)
    ensures
        match r {
            Some(v) => byte_slice(s@, a as int, b as int) == Some(v@),
            None => byte_slice(s@, a as int, b as int) is None,
        },
{
    if a > b {
        return None;
    }
    match (char_index_at(s, a), char_index_at(s, b)) {
        (Some(i), Some(j)) => {
            proof {
                if j < i {
                    lemma_byte_len_prefix_grows(s@, j as int, i as int);
                }
            }
            Some(sub_text(s, i, j))
        },
        _ => None,
    }
}

/// The text from byte offset `a` to the end; `None` where `&s[a..]` would panic.
pub fn slice_bytes_from(s: &Vec<char>, a: usize) -> (r: Option<Vec<char>>)
    ensures
        match r {
            Some(v) => byte_slice(s@, a as int, byte_len(s@) as int) == Some(v@),
            None => byte_slice(s@, a as int, byte_len(s@) as int) is None,
        },
{
    let n = s.len();
    proof {
        assert(s@.take(n as int) =~= s@);
        assert(boundary_at(s@, byte_len(s@) as int, n as int));
        let c = char_index(s@, byte_len(s@) as int);
        lemma_boundary_unique(s@, byte_len(s@) as int, c, n as int);
    }
    match char_index_at(s, a) {
        Some(i) => {
            proof {
                if i < n {
                    lemma_byte_len_prefix_grows(s@, i as int, n as int);
                }
            }
            Some(sub_text(s, i, n))
        },
        None => None,
    }
}

/// The pieces of `s` between the occurrences of `sep`, as `str::split` yields them:
/// always at least one piece, and an empty one after a trailing separator.
pub open spec fn split_on(s: Seq<char>, sep: char) -> Seq<Seq<char>>
    decreases s.len(),
{
    if s.len() == 0 {
        seq![seq![]]
    } else {
        let p = split_on(s.drop_last(), sep);
        if s.last() == sep {
            p.push(seq![])
        } else {
            p.update(p.len() - 1, p.last().push(s.last()))
        }
    }
}

/// There is always a piece.
pub proof fn lemma_split_on_nonempty(s: Seq<char>, sep: char)
    ensures
        split_on(s, sep).len() >= 1,
    decreases s.len(),
{
    if s.len() > 0 {
        lemma_split_on_nonempty(s.drop_last(), sep);
    }
}


/// The pieces of `s` between the occurrences of `sep`.
pub fn split_text(s: &Vec<char>, sep: char) -> (r: Vec<Vec<char>>)
    ensures
        views(r@) == split_on(s@, sep),
{
    let mut done: Vec<Vec<char>> = Vec::new();
    let mut cur: Vec<char> = Vec::new();
    let n = s.len();
    let mut i: usize = 0;
    while i < n
        invariant
            n == s.len(),
            0 <= i <= n,
            split_on(s@.take(i as int), sep) == views(done@).push(cur@),
        decreases n - i,
    {
        let c = s[i];
        assert(s@.take(i + 1).drop_last() == s@.take(i as int));
        if c == sep {
            let ghost prev = done@;
            let w = cur;
            done.push(w);
            cur = Vec::new();
            assert(views(done@) =~= views(prev).push(w@));
            assert(views(done@).push(cur@) =~= views(prev).push(w@).push(seq![]));
        } else {
            let ghost prev = cur@;
            cur.push(c);
            assert(views(done@).push(cur@) =~= views(done@).push(prev).update(
                views(done@).len() as int,
                prev.push(c),
            ));
        }
        i = i + 1;
    }
    assert(s@.take(n as int) == s@);
    let ghost prev = done@;
    let w = cur;
    done.push(w);
    assert(views(done@) =~= views(prev).push(w@));
    done
}

} // verus!
