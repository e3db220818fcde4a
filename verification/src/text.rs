//! Character-sequence primitives: whitespace trimming, splitting and numbers
//! written in digits, each with a specification over `Seq<char>`.

use vstd::prelude::*;
use vstd::string::*;

verus! {

/// Whether `c` is white space, as Unicode defines it.
pub open spec fn is_space(c: char) -> bool {
    let n = c as u32;
    (0x09 <= n && n <= 0x0d) || n == 0x20 || n == 0x85 || n == 0xa0 || n == 0x1680 || (0x2000 <= n
        && n <= 0x200a) || n == 0x2028 || n == 0x2029 || n == 0x202f || n == 0x205f || n == 0x3000
}

/// `s` without its leading white space.
pub open spec fn trim_start(s: Seq<char>) -> Seq<char>
    decreases s.len(),
{
    if s.len() > 0 && is_space(s.first()) {
        trim_start(s.drop_first())
    } else {
        s
    }
}

/// `s` without its trailing white space.
pub open spec fn trim_end(s: Seq<char>) -> Seq<char>
    decreases s.len(),
{
    if s.len() > 0 && is_space(s.last()) {
        trim_end(s.drop_last())
    } else {
        s
    }
}

/// `s` without leading and trailing white space.
pub open spec fn trim(s: Seq<char>) -> Seq<char> {
    trim_end(trim_start(s))
}

/// Index of the first `c` in `s`, or `s.len()` where there is none.
pub open spec fn find(s: Seq<char>, c: char) -> nat
    decreases s.len(),
{
    if s.len() == 0 || s.first() == c {
        0
    } else {
        1 + find(s.drop_first(), c)
    }
}

/// Index of the first place where `c` stands twice in a row, or `s.len()`.
pub open spec fn find_pair(s: Seq<char>, c: char) -> nat
    decreases s.len(),
{
    if s.len() < 2 {
        s.len()
    } else if s[0] == c && s[1] == c {
        0
    } else {
        1 + find_pair(s.drop_first(), c)
    }
}

/// The pieces of `s` between occurrences of `c`; always at least one piece.
pub open spec fn split(s: Seq<char>, c: char) -> Seq<Seq<char>>
    decreases s.len(),
{
    let i = find(s, c);
    if i < s.len() {
        seq![s.take(i as int)] + split(s.skip(i as int + 1), c)
    } else {
        seq![s]
    }
}

/// The value of `c` as a digit or letter, letters counting from ten in either
/// case.
pub open spec fn alphanumeric_value(c: char) -> Option<nat> {
    let n = c as u32;
    if 48 <= n && n <= 57 {
        Some((n - 48) as nat)
    } else if 97 <= n && n <= 122 {
        Some((n - 87) as nat)
    } else if 65 <= n && n <= 90 {
        Some((n - 55) as nat)
    } else {
        None
    }
}

/// The value of `c` as a digit in base `radix`.
pub open spec fn digit_of(c: char, radix: nat) -> Option<nat> {
    match alphanumeric_value(c) {
        Some(d) => if d < radix {
            Some(d)
        } else {
            None
        },
        None => None,
    }
}

/// Whether every character of `s` is a digit in base `radix`.
pub open spec fn all_digits(s: Seq<char>, radix: nat) -> bool {
    forall|i: int| 0 <= i < s.len() ==> (#[trigger] digit_of(s[i], radix)) is Some
}

/// The number that the digits of `s` write in base `radix`, most significant
/// first. A character that is no digit counts as zero.
pub open spec fn number_of(s: Seq<char>, radix: nat) -> nat
    decreases s.len(),
{
    if s.len() == 0 {
        0
    } else {
        number_of(s.drop_last(), radix) * radix + match digit_of(s.last(), radix) {
            Some(d) => d,
            None => 0,
        }
    }
}

/// A non-empty run of digits, as a number.
pub open spec fn unsigned_digits(s: Seq<char>, radix: nat) -> Option<nat> {
    if s.len() > 0 && all_digits(s, radix) {
        Some(number_of(s, radix))
    } else {
        None
    }
}

/// A non-empty run of digits whose number fits 64 bits. No sign stands
/// before the digits.
pub open spec fn parse_u64_spec(s: Seq<char>, radix: nat) -> Option<u64> {
    match unsigned_digits(s, radix) {
        Some(v) => if v <= u64::MAX {
            Some(v as u64)
        } else {
            None
        },
        None => None,
    }
}

/// The views of a list of string slices.
pub open spec fn views(pieces: Seq<&str>) -> Seq<Seq<char>> {
    Seq::new(pieces.len(), |i: int| pieces[i]@)
}

/// Leading white space ends at the first character that is none.
pub proof fn lemma_trim_start(s: Seq<char>, a: int)
    requires
        0 <= a <= s.len(),
        forall|k: int| 0 <= k < a ==> is_space(#[trigger] s[k]),
        a == s.len() || !is_space(s[a]),
    ensures
        trim_start(s) == s.skip(a),
    decreases a,
{
    if a == 0 {
        assert(s.skip(0) =~= s);
    } else {
        let t = s.drop_first();
        assert forall|k: int| 0 <= k < a - 1 implies is_space(#[trigger] t[k]) by {
            assert(t[k] == s[k + 1]);
        }
        lemma_trim_start(t, a - 1);
        assert(t.skip(a - 1) =~= s.skip(a));
    }
}

/// Trailing white space begins after the last character that is none.
pub proof fn lemma_trim_end(s: Seq<char>, b: int)
    requires
        0 <= b <= s.len(),
        forall|k: int| b <= k < s.len() ==> is_space(#[trigger] s[k]),
        b == 0 || !is_space(s[b - 1]),
    ensures
        trim_end(s) == s.take(b),
    decreases s.len() - b,
{
    if b == s.len() {
        assert(s.take(b) =~= s);
    } else {
        let t = s.drop_last();
        assert forall|k: int| b <= k < t.len() implies is_space(#[trigger] t[k]) by {
            assert(t[k] == s[k]);
        }
        lemma_trim_end(t, b);
        assert(t.take(b) =~= s.take(b));
    }
}

/// The first `c` is the one that no `c` stands before.
pub proof fn lemma_find(s: Seq<char>, c: char, i: int)
    requires
        0 <= i <= s.len(),
        forall|k: int| 0 <= k < i ==> #[trigger] s[k] != c,
        i == s.len() || s[i] == c,
    ensures
        find(s, c) == i,
    decreases i,
{
    if i > 0 {
        let t = s.drop_first();
        assert forall|k: int| 0 <= k < i - 1 implies #[trigger] t[k] != c by {
            assert(t[k] == s[k + 1]);
        }
        lemma_find(t, c, i - 1);
    }
}

/// The first pair of `c` is the one that no pair stands before.
pub proof fn lemma_find_pair(s: Seq<char>, c: char, i: int)
    requires
        0 <= i <= s.len(),
        forall|k: int| 0 <= k < i && k + 1 < s.len() ==> !(#[trigger] s[k] == c && s[k + 1] == c),
        i + 1 < s.len() ==> s[i] == c && s[i + 1] == c,
        i + 1 >= s.len() ==> i == s.len(),
    ensures
        find_pair(s, c) == i,
    decreases s.len(),
{
    if s.len() < 2 {
    } else if i == 0 {
    } else {
        let t = s.drop_first();
        assert(!(s[0] == c && s[1] == c));
        assert forall|k: int| 0 <= k < i - 1 && k + 1 < t.len() implies !(#[trigger] t[k] == c
            && t[k + 1] == c) by {
            assert(t[k] == s[k + 1]);
            assert(t[k + 1] == s[k + 2]);
        }
        lemma_find_pair(t, c, i - 1);
    }
}

/// More digits never write a smaller number.
pub proof fn lemma_number_of_take(s: Seq<char>, radix: nat, i: int, j: int)
    requires
        0 <= i <= j <= s.len(),
        radix >= 1,
    ensures
        number_of(s.take(i), radix) <= number_of(s.take(j), radix),
    decreases j - i,
{
    if i < j {
        lemma_number_of_take(s, radix, i, j - 1);
        let t = s.take(j);
        assert(t.drop_last() =~= s.take(j - 1));
        let n = number_of(s.take(j - 1), radix);
        assert(n * radix >= n) by (nonlinear_arith)
            requires
                radix >= 1,
                n >= 0,
        ;
    }
}

/// Whether `c` is white space.
pub fn is_whitespace(c: char) -> (b: bool)
    ensures
        b == is_space(c),
{
    let n: u32 = c as u32;
    (0x09 <= n && n <= 0x0d) || n == 0x20 || n == 0x85 || n == 0xa0 || n == 0x1680 || (0x2000 <= n
        && n <= 0x200a) || n == 0x2028 || n == 0x2029 || n == 0x202f || n == 0x205f || n == 0x3000
}

/// The characters of `s`, one by one.
pub fn chars_of(s: &str) -> (v: Vec<char>)
    ensures
        v@ == s@,
{
    let mut v: Vec<char> = Vec::new();
    for c in it: s.chars()
        invariant
            v@ == it.seq().take(it.index() as int),
            it.seq() == s@,
    {
        v.push(c);
    }
    v
}

/// Whether two strings hold the same characters.
pub fn str_eq(a: &str, b: &str) -> (same: bool)
    ensures
        same == (a@ == b@),
{
    let x: Vec<char> = chars_of(a);
    let y: Vec<char> = chars_of(b);
    if x.len() != y.len() {
        return false;
    }
    let mut i: usize = 0;
    while i < x.len()
        invariant
            i <= x.len(),
            x.len() == y.len(),
            x@ == a@,
            y@ == b@,
            forall|k: int| 0 <= k < i ==> x@[k] == y@[k],
        decreases x.len() - i,
    {
        if x[i] != y[i] {
            return false;
        }
        i += 1;
    }
    assert(x@ =~= y@);
    true
}

/// `s` without leading and trailing white space.
pub fn trim_str<'a>(s: &'a str) -> (r: &'a str)
    ensures
        r@ == trim(s@),
{
    let v: Vec<char> = chars_of(s);
    let n: usize = v.len();
    let mut a: usize = 0;
    while a < n && is_whitespace(v[a])
        invariant
            a <= n,
            n == v@.len(),
            forall|k: int| 0 <= k < a ==> is_space(#[trigger] v@[k]),
        decreases n - a,
    {
        a += 1;
    }
    let mut b: usize = n;
    while b > a && is_whitespace(v[b - 1])
        invariant
            a <= b <= n,
            n == v@.len(),
            forall|k: int| b <= k < n ==> is_space(#[trigger] v@[k]),
        decreases b,
    {
        b -= 1;
    }
    proof {
        lemma_trim_start(v@, a as int);
        let t = v@.skip(a as int);
        assert forall|k: int| b - a <= k < t.len() implies is_space(#[trigger] t[k]) by {
            assert(t[k] == v@[k + a]);
        }
        lemma_trim_end(t, b - a);
        assert(t.take(b - a) =~= v@.subrange(a as int, b as int));
    }
    s.substring_char(a, b)
}

/// The pieces of `s` between occurrences of `c`.
pub fn split_str<'a>(s: &'a str, c: char) -> (pieces: Vec<&'a str>)
    ensures
        views(pieces@) == split(s@, c),
{
    let v: Vec<char> = chars_of(s);
    let n: usize = v.len();
    let mut pieces: Vec<&'a str> = Vec::new();
    let mut start: usize = 0;
    let mut i: usize = 0;
    proof {
        assert(v@.skip(0) =~= v@);
        assert(views(pieces@) + split(v@, c) =~= split(v@, c));
    }
    while i < n
        invariant
            start <= i <= n,
            n == v@.len(),
            v@ == s@,
            forall|k: int| start <= k < i ==> #[trigger] v@[k] != c,
            views(pieces@) + split(v@.skip(start as int), c) == split(v@, c),
        decreases n - i,
    {
        if v[i] == c {
            let piece: &'a str = s.substring_char(start, i);
            proof {
                let t = v@.skip(start as int);
                assert forall|k: int| 0 <= k < i - start implies #[trigger] t[k] != c by {
                    assert(t[k] == v@[k + start]);
                }
                lemma_find(t, c, i - start);
                assert(t.take(i - start) =~= piece@);
                assert(t.skip(i - start + 1) =~= v@.skip(i + 1));
                assert(views(pieces@.push(piece)) =~= views(pieces@) + seq![piece@]);
                assert(split(t, c) == seq![piece@] + split(v@.skip(i + 1), c));
                assert(views(pieces@.push(piece)) + split(v@.skip(i + 1), c) =~= views(pieces@)
                    + split(t, c));
            }
            pieces.push(piece);
            start = i + 1;
        }
        i += 1;
    }
    let piece: &'a str = s.substring_char(start, n);
    proof {
        let t = v@.skip(start as int);
        assert forall|k: int| 0 <= k < n - start implies #[trigger] t[k] != c by {
            assert(t[k] == v@[k + start]);
        }
        lemma_find(t, c, n - start);
        assert(t =~= piece@);
        assert(views(pieces@.push(piece)) =~= views(pieces@) + seq![piece@]);
    }
    pieces.push(piece);
    pieces
}

/// `s` cut at its first `c`: what stands before it and what stands after.
pub fn split_once_str<'a>(s: &'a str, c: char) -> (r: Option<(&'a str, &'a str)>)
    ensures
        match r {
            Some((head, tail)) => find(s@, c) < s@.len() && head@ == s@.take(find(s@, c) as int)
                && tail@ == s@.skip(find(s@, c) as int + 1),
            None => find(s@, c) == s@.len(),
        },
{
    let v: Vec<char> = chars_of(s);
    let n: usize = v.len();
    let mut i: usize = 0;
    while i < n && v[i] != c
        invariant
            i <= n,
            n == v@.len(),
            forall|k: int| 0 <= k < i ==> #[trigger] v@[k] != c,
        decreases n - i,
    {
        i += 1;
    }
    proof {
        lemma_find(v@, c, i as int);
    }
    if i < n {
        let head: &'a str = s.substring_char(0, i);
        let tail: &'a str = s.substring_char(i + 1, n);
        assert(head@ =~= s@.take(i as int));
        assert(tail@ =~= s@.skip(i + 1));
        Some((head, tail))
    } else {
        None
    }
}

/// `s` cut at the first place where `c` stands twice in a row.
pub fn split_once_pair<'a>(s: &'a str, c: char) -> (r: Option<(&'a str, &'a str)>)
    ensures
        match r {
            Some((head, tail)) => find_pair(s@, c) < s@.len() && head@ == s@.take(
                find_pair(s@, c) as int,
            ) && tail@ == s@.skip(find_pair(s@, c) as int + 2),
            None => find_pair(s@, c) == s@.len(),
        },
{
    let v: Vec<char> = chars_of(s);
    let n: usize = v.len();
    let mut i: usize = 0;
    while n - i >= 2 && !(v[i] == c && v[i + 1] == c)
        invariant
            i <= n,
            n == v@.len(),
            forall|k: int| 0 <= k < i && k + 1 < n ==> !(#[trigger] v@[k] == c && v@[k + 1] == c),
        decreases n - i,
    {
        i += 1;
    }
    if n - i >= 2 {
        proof {
            lemma_find_pair(v@, c, i as int);
        }
        let head: &'a str = s.substring_char(0, i);
        let tail: &'a str = s.substring_char(i + 2, n);
        assert(head@ =~= s@.take(i as int));
        assert(tail@ =~= s@.skip(i + 2));
        Some((head, tail))
    } else {
        proof {
            lemma_find_pair(v@, c, n as int);
        }
        None
    }
}

/// What follows `prefix` in `s`, where `s` begins with it.
pub fn strip_prefix_str<'a>(s: &'a str, prefix: &str) -> (r: Option<&'a str>)
    ensures
        match r {
            Some(rest) => prefix@.is_prefix_of(s@) && rest@ == s@.skip(prefix@.len() as int),
            None => !prefix@.is_prefix_of(s@),
        },
{
    let v: Vec<char> = chars_of(s);
    let p: Vec<char> = chars_of(prefix);
    if p.len() > v.len() {
        return None;
    }
    let mut i: usize = 0;
    while i < p.len()
        invariant
            i <= p.len() <= v.len(),
            v@ == s@,
            p@ == prefix@,
            forall|k: int| 0 <= k < i ==> v@[k] == p@[k],
        decreases p.len() - i,
    {
        if v[i] != p[i] {
            assert(s@.subrange(0, prefix@.len() as int)[i as int] != prefix@[i as int]);
            return None;
        }
        i += 1;
    }
    assert(s@.subrange(0, prefix@.len() as int) =~= prefix@);
    let rest: &'a str = s.substring_char(p.len(), v.len());
    assert(rest@ =~= s@.skip(prefix@.len() as int));
    Some(rest)
}

fn digit_value(c: char, radix: u32) -> (d: Option<u32>)
    ensures
        match d {
            Some(x) => digit_of(c, radix as nat) == Some(x as nat),
            None => digit_of(c, radix as nat) is None,
        },
{
    let n: u32 = c as u32;
    let d: u32 = if 48 <= n && n <= 57 {
        n - 48
    } else if 97 <= n && n <= 122 {
        n - 87
    } else if 65 <= n && n <= 90 {
        n - 55
    } else {
        return None;
    };
    if d < radix {
        Some(d)
    } else {
        None
    }
}

/// Reads the digits of `v` from `from` on as one number in base `radix`.
fn parse_digits(v: &Vec<char>, from: usize, radix: u32) -> (r: Option<u64>)
    requires
        from <= v@.len(),
    ensures
        r == match unsigned_digits(v@.skip(from as int), radix as nat) {
            Some(n) => if n <= u64::MAX {
                Some(n as u64)
            } else {
                None
            },
            None => None,
        },
{
    let ghost t = v@.skip(from as int);
    let n: usize = v.len();
    if from == n {
        return None;
    }
    let mut acc: u64 = 0;
    let mut i: usize = from;
    assert(t.take(0) =~= Seq::<char>::empty());
    while i < n
        invariant
            from <= i <= n,
            n == v@.len(),
            t == v@.skip(from as int),
            forall|k: int| 0 <= k < i - from ==> (#[trigger] digit_of(t[k], radix as nat)) is Some,
            acc == number_of(t.take(i - from), radix as nat),
        decreases n - i,
    {
        let d: u32 = match digit_value(v[i], radix) {
            Some(d) => d,
            None => {
                assert(t[i - from] == v@[i as int]);
                return None;
            },
        };
        proof {
            assert(t[i - from] == v@[i as int]);
            let u = t.take(i - from + 1);
            assert(u.drop_last() =~= t.take(i - from));
            assert(u.last() == t[i - from]);
            lemma_number_of_take(t, radix as nat, i - from + 1, t.len() as int);
            assert(t.take(t.len() as int) =~= t);
        }
        let scaled: u64 = match acc.checked_mul(radix as u64) {
            Some(x) => x,
            None => {
                return None;
            },
        };
        acc = match scaled.checked_add(d as u64) {
            Some(x) => x,
            None => {
                return None;
            },
        };
        i += 1;
    }
    assert(t.take(n - from) =~= t);
    Some(acc)
}

/// Reads a run of digits in base `radix` as a number of 64 bits.
pub fn parse_u64(s: &str, radix: u32) -> (r: Option<u64>)
    ensures
        r == parse_u64_spec(s@, radix as nat),
{
    let v: Vec<char> = chars_of(s);
    assert(v@.skip(0) =~= s@);
    parse_digits(&v, 0, radix)
}

} // verus!
