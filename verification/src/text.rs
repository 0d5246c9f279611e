//! Text as sequences of characters: trimming, comparing, searching,
//! concatenating and writing numbers.

use vstd::prelude::*;
use vstd::string::*;

verus! {

/// `String::push` appends one character at the end of the string.
pub assume_specification[ String::push ](s: &mut String, c: char)
    ensures
        final(s)@ == old(s)@.push(c),
;

/// The contents of a list of strings.
pub open spec fn texts(v: Seq<String>) -> Seq<Seq<char>> {
    v.map_values(|s: String| s@)
}

/// The content of an optional string.
pub open spec fn opt_text(s: Option<String>) -> Option<Seq<char>> {
    match s {
        Some(t) => Some(t@),
        None => None,
    }
}

/// The content of an optional string slice.
pub open spec fn opt_str(s: Option<&str>) -> Option<Seq<char>> {
    match s {
        Some(t) => Some(t@),
        None => None,
    }
}

/// The characters of `s`, in order.
pub fn chars_of(s: &str) -> (r: Vec<char>)
    ensures
        r@ == s@,
{
    let mut r: Vec<char> = Vec::new();
    for c in it: s.chars()
        invariant
            r@ == s@.take(it.index() as int),
            it.seq() == s@,
    {
        r.push(c);
        assert(r@ =~= s@.take(it.index() + 1));
    }
    assert(s@.take(s@.len() as int) =~= s@);
    r
}

/// The string made of the characters of `v` from `from` up to `to`.
pub fn text_range(v: &Vec<char>, from: usize, to: usize) -> (r: String)
    requires
        from <= to <= v@.len(),
    ensures
        r@ == v@.subrange(from as int, to as int),
{
    let mut r = String::new();
    let mut i: usize = from;
    while i < to
        invariant
            from <= i <= to <= v@.len(),
            r@ == v@.subrange(from as int, i as int),
        decreases to - i,
    {
        r.push(v[i]);
        i += 1;
        assert(r@ =~= v@.subrange(from as int, i as int));
    }
    r
}

/// The string made of all the characters of `v`.
pub fn text_of(v: &Vec<char>) -> (r: String)
    ensures
        r@ == v@,
{
    let r = text_range(v, 0, v.len());
    assert(v@.subrange(0, v@.len() as int) =~= v@);
    r
}

/// A copy of a list of strings.
pub fn clone_texts(v: &Vec<String>) -> (r: Vec<String>)
    ensures
        texts(r@) == texts(v@),
{
    let mut r: Vec<String> = Vec::new();
    let mut i: usize = 0;
    while i < v.len()
        invariant
            i <= v@.len(),
            texts(r@) == texts(v@).take(i as int),
        decreases v@.len() - i,
    {
        let ghost so_far = r@;
        r.push(v[i].clone());
        i += 1;
        assert(texts(r@) =~= texts(so_far).push(v@[i - 1]@));
        assert(texts(r@) =~= texts(v@).take(i as int));
    }
    assert(texts(v@).take(v@.len() as int) =~= texts(v@));
    r
}

/// A copy of an optional string.
pub fn clone_opt(s: &Option<String>) -> (r: Option<String>)
    ensures
        opt_text(r) == opt_text(*s),
{
    match s {
        Some(t) => Some(t.clone()),
        None => None,
    }
}

/// Whether two texts are the same.
pub fn same(a: &str, b: &str) -> (r: bool)
    ensures
        r == (a@ == b@),
{
    let x = chars_of(a);
    let y = chars_of(b);
    if x.len() != y.len() {
        return false;
    }
    let mut i: usize = 0;
    while i < x.len()
        invariant
            i <= x@.len(),
            x@ == a@,
            y@ == b@,
            x@.len() == y@.len(),
            forall|k: int| 0 <= k < i ==> x@[k] == y@[k],
        decreases x@.len() - i,
    {
        if x[i] != y[i] {
            assert(x@[i as int] != y@[i as int]);
            return false;
        }
        i += 1;
    }
    assert(a@ =~= b@);
    true
}

/// Whether `list` holds the text `s`.
pub fn holds(list: &Vec<String>, s: &str) -> (r: bool)
    ensures
        r == texts(list@).contains(s@),
{
    let mut i: usize = 0;
    while i < list.len()
        invariant
            i <= list@.len(),
            forall|k: int| 0 <= k < i ==> texts(list@)[k] != s@,
        decreases list@.len() - i,
    {
        if same(list[i].as_str(), s) {
            assert(texts(list@)[i as int] == s@);
            return true;
        }
        assert(texts(list@)[i as int] == list@[i as int]@);
        i += 1;
    }
    false
}

/// `a` followed by `b`.
pub fn cat(a: &str, b: &str) -> (r: String)
    ensures
        r@ == a@ + b@,
{
    let mut r = String::new();
    r.append(a);
    r.append(b);
    assert(r@ =~= a@ + b@);
    r
}

/// `a`, then `b`, then `c`.
pub fn cat3(a: &str, b: &str, c: &str) -> (r: String)
    ensures
        r@ == a@ + b@ + c@,
{
    let mut r = cat(a, b);
    r.append(c);
    r
}

/// `a`, then `b`, then `c`, then `d`.
pub fn cat4(a: &str, b: &str, c: &str, d: &str) -> (r: String)
    ensures
        r@ == a@ + b@ + c@ + d@,
{
    let mut r = cat3(a, b, c);
    r.append(d);
    r
}

/// The parts with `sep` between each two neighbours.
pub open spec fn joined(parts: Seq<Seq<char>>, sep: Seq<char>) -> Seq<char>
    decreases parts.len(),
{
    if parts.len() == 0 {
        Seq::empty()
    } else if parts.len() == 1 {
        parts[0]
    } else {
        joined(parts.drop_last(), sep) + sep + parts.last()
    }
}

/// The strings of `parts` with `sep` between each two neighbours.
pub fn join_texts(parts: &Vec<String>, sep: &str) -> (r: String)
    ensures
        r@ == joined(texts(parts@), sep@),
{
    let mut r = String::new();
    let ghost all = texts(parts@);
    let mut i: usize = 0;
    while i < parts.len()
        invariant
            i <= parts@.len(),
            all == texts(parts@),
            r@ == joined(all.take(i as int), sep@),
        decreases parts@.len() - i,
    {
        if i > 0 {
            r.append(sep);
        }
        r.append(parts[i].as_str());
        proof {
            assert(all[i as int] == parts@[i as int]@);
            assert(all.take(i + 1).drop_last() =~= all.take(i as int));
            assert(all.take(i + 1).last() == all[i as int]);
            if i == 0 {
                assert(r@ =~= all[0]);
            }
        }
        i += 1;
    }
    assert(all.take(all.len() as int) =~= all);
    r
}

/// `s` with every `from` replaced by `to`.
pub open spec fn replaced(s: Seq<char>, from: char, to: char) -> Seq<char> {
    s.map_values(|c: char| if c == from { to } else { c })
}

/// `s` with every `from` replaced by `to`.
pub fn replace_char(s: &str, from: char, to: char) -> (r: String)
    ensures
        r@ == replaced(s@, from, to),
{
    let v = chars_of(s);
    let mut r = String::new();
    let mut i: usize = 0;
    while i < v.len()
        invariant
            i <= v@.len(),
            v@ == s@,
            r@ == replaced(s@, from, to).take(i as int),
        decreases v@.len() - i,
    {
        let c = v[i];
        if c == from {
            r.push(to);
        } else {
            r.push(c);
        }
        i += 1;
        assert(r@ =~= replaced(s@, from, to).take(i as int));
    }
    assert(replaced(s@, from, to).take(s@.len() as int) =~= replaced(s@, from, to));
    r
}

/// Whether `s` ends in `tail`.
pub open spec fn ends_in(s: Seq<char>, tail: Seq<char>) -> bool {
    tail.len() <= s.len() && s.skip(s.len() - tail.len()) == tail
}

/// Whether `s` ends in `tail`.
pub fn ends_with(s: &str, tail: &str) -> (r: bool)
    ensures
        r == ends_in(s@, tail@),
{
    let v = chars_of(s);
    let t = chars_of(tail);
    if t.len() > v.len() {
        return false;
    }
    let start: usize = v.len() - t.len();
    let mut i: usize = 0;
    while i < t.len()
        invariant
            i <= t@.len(),
            v@ == s@,
            t@ == tail@,
            t@.len() <= v@.len(),
            start == v@.len() - t@.len(),
            forall|k: int| 0 <= k < i ==> v@[start + k] == t@[k],
        decreases t@.len() - i,
    {
        assert(start + i < v.len());
        if v[start + i] != t[i] {
            assert(s@.skip(start as int)[i as int] != tail@[i as int]);
            return false;
        }
        i += 1;
    }
    assert(s@.skip(start as int) =~= tail@);
    true
}

// ---------------------------------------------------------------------------
// Character classes and trimming
// ---------------------------------------------------------------------------

/// The characters with the Unicode property White_Space.
pub open spec fn is_space(c: char) -> bool {
    ||| '\u{9}' <= c <= '\u{d}'
    ||| c == ' '
    ||| c == '\u{85}'
    ||| c == '\u{a0}'
    ||| c == '\u{1680}'
    ||| '\u{2000}' <= c <= '\u{200a}'
    ||| c == '\u{2028}'
    ||| c == '\u{2029}'
    ||| c == '\u{202f}'
    ||| c == '\u{205f}'
    ||| c == '\u{3000}'
}

fn check_space(c: char) -> (r: bool)
    ensures
        r == is_space(c),
{
    ('\u{9}' <= c && c <= '\u{d}') || c == ' ' || c == '\u{85}' || c == '\u{a0}' || c
        == '\u{1680}' || ('\u{2000}' <= c && c <= '\u{200a}') || c == '\u{2028}' || c == '\u{2029}'
        || c == '\u{202f}' || c == '\u{205f}' || c == '\u{3000}'
}

/// An ASCII digit.
pub open spec fn is_digit(c: char) -> bool {
    '0' <= c <= '9'
}

/// An ASCII lower-case letter.
pub open spec fn is_lower(c: char) -> bool {
    'a' <= c <= 'z'
}

/// An ASCII letter.
pub open spec fn is_letter(c: char) -> bool {
    is_lower(c) || 'A' <= c <= 'Z'
}

/// An ASCII letter or digit.
pub open spec fn is_alnum(c: char) -> bool {
    is_letter(c) || is_digit(c)
}

pub fn check_lower(c: char) -> (r: bool)
    ensures
        r == is_lower(c),
{
    'a' <= c && c <= 'z'
}

pub fn check_digit(c: char) -> (r: bool)
    ensures
        r == is_digit(c),
{
    '0' <= c && c <= '9'
}

pub fn check_letter(c: char) -> (r: bool)
    ensures
        r == is_letter(c),
{
    check_lower(c) || ('A' <= c && c <= 'Z')
}

pub fn check_alnum(c: char) -> (r: bool)
    ensures
        r == is_alnum(c),
{
    check_letter(c) || check_digit(c)
}

/// `s` without its leading white space.
pub open spec fn trimmed_start(s: Seq<char>) -> Seq<char>
    decreases s.len(),
{
    if s.len() > 0 && is_space(s[0]) {
        trimmed_start(s.skip(1))
    } else {
        s
    }
}

/// `s` without its trailing white space.
pub open spec fn trimmed_end(s: Seq<char>) -> Seq<char>
    decreases s.len(),
{
    if s.len() > 0 && is_space(s.last()) {
        trimmed_end(s.drop_last())
    } else {
        s
    }
}

/// `s` without its leading and trailing white space.
pub open spec fn trimmed(s: Seq<char>) -> Seq<char> {
    trimmed_end(trimmed_start(s))
}

/// `s` without its leading and trailing white space.
pub fn trim(s: &str) -> (r: String)
    ensures
        r@ == trimmed(s@),
{
    let v = chars_of(s);
    let mut from: usize = 0;
    assert(s@.skip(0) =~= s@);
    while from < v.len() && check_space(v[from])
        invariant
            from <= v@.len(),
            v@ == s@,
            trimmed_start(s@.skip(from as int)) == trimmed_start(s@),
        decreases v@.len() - from,
    {
        assert(s@.skip(from as int).skip(1) =~= s@.skip(from + 1));
        from += 1;
    }
    assert(trimmed_start(s@) == s@.skip(from as int));
    let mut to: usize = v.len();
    assert(s@.subrange(from as int, s@.len() as int) =~= s@.skip(from as int));
    while to > from && check_space(v[to - 1])
        invariant
            from <= to <= v@.len(),
            v@ == s@,
            trimmed_end(s@.subrange(from as int, to as int)) == trimmed(s@),
        decreases to,
    {
        assert(s@.subrange(from as int, to as int).drop_last() =~= s@.subrange(
            from as int,
            to - 1,
        ));
        to -= 1;
    }
    text_range(&v, from, to)
}

/// The strings of `list`, trimmed, without those that are then empty.
pub open spec fn trimmed_nonempty(list: Seq<Seq<char>>) -> Seq<Seq<char>> {
    list.map_values(|s: Seq<char>| trimmed(s)).filter(|s: Seq<char>| s.len() > 0)
}

/// The strings of `list`, trimmed, without those that are then empty.
pub fn trim_all(list: &Vec<String>) -> (r: Vec<String>)
    ensures
        texts(r@) == trimmed_nonempty(texts(list@)),
{
    let mut r: Vec<String> = Vec::new();
    let ghost all = texts(list@).map_values(|s: Seq<char>| trimmed(s));
    let ghost full = |s: Seq<char>| s.len() > 0;
    proof {
        reveal(Seq::filter);
    }
    let mut i: usize = 0;
    while i < list.len()
        invariant
            i <= list@.len(),
            all == texts(list@).map_values(|s: Seq<char>| trimmed(s)),
            full == (|s: Seq<char>| s.len() > 0),
            texts(r@) == all.take(i as int).filter(full),
        decreases list@.len() - i,
    {
        let t = trim(list[i].as_str());
        proof {
            reveal(Seq::filter);
            assert(all[i as int] == t@);
            assert(all.take(i + 1).drop_last() =~= all.take(i as int));
        }
        if !t.as_str().is_empty() {
            let ghost before = r@;
            r.push(t);
            assert(texts(r@) =~= texts(before).push(t@));
        }
        i += 1;
    }
    assert(all.take(all.len() as int) =~= all);
    r
}

// ---------------------------------------------------------------------------
// Numbers
// ---------------------------------------------------------------------------

/// The character of the digit `d`.
pub open spec fn digit(d: nat) -> char {
    (48 + d) as char
}

/// `n` in decimal, without leading zeros.
pub open spec fn decimal(n: nat) -> Seq<char>
    decreases n,
{
    if n < 10 {
        seq![digit(n)]
    } else {
        decimal(n / 10).push(digit(n % 10))
    }
}

fn push_decimal(out: &mut String, n: u128)
    ensures
        final(out)@ == old(out)@ + decimal(n as nat),
    decreases n,
{
    let ghost before = out@;
    if n >= 10 {
        push_decimal(out, n / 10);
    }
    let d: u8 = (n % 10) as u8;
    out.push((48 + d) as char);
    assert(out@ =~= before + decimal(n as nat));
}

/// `n` in decimal.
pub fn decimal_text(n: u128) -> (r: String)
    ensures
        r@ == decimal(n as nat),
{
    let mut r = String::new();
    push_decimal(&mut r, n);
    assert(r@ =~= decimal(n as nat));
    r
}

/// A number in decimal has at least one character and only digits.
pub proof fn decimal_digits(n: nat)
    ensures
        decimal(n).len() > 0,
        forall|i: int| 0 <= i < decimal(n).len() ==> is_digit(#[trigger] decimal(n)[i]),
    decreases n,
{
    if n >= 10 {
        decimal_digits(n / 10);
    }
}

/// Different numbers are written differently.
pub proof fn decimal_injective(a: nat, b: nat)
    requires
        decimal(a) == decimal(b),
    ensures
        a == b,
    decreases a,
{
    decimal_digits(a / 10);
    decimal_digits(b / 10);
    assert(decimal(a).last() == digit(a % 10));
    assert(decimal(b).last() == digit(b % 10));
    if a >= 10 && b >= 10 {
        assert(decimal(a).drop_last() =~= decimal(a / 10));
        assert(decimal(b).drop_last() =~= decimal(b / 10));
        decimal_injective(a / 10, b / 10);
    }
}

/// Ten to the power of `n`.
pub open spec fn ten_to(n: nat) -> nat
    decreases n,
{
    if n == 0 {
        1
    } else {
        10 * ten_to((n - 1) as nat)
    }
}

/// A number below ten to the power of `width` has at most `width` digits.
pub proof fn decimal_len(n: nat, width: nat)
    requires
        n < ten_to(width),
        width > 0,
    ensures
        decimal(n).len() <= width,
    decreases width,
{
    if n >= 10 {
        decimal_len(n / 10, (width - 1) as nat);
    }
}

// ---------------------------------------------------------------------------
// Order
// ---------------------------------------------------------------------------

/// `a` comes before `b`: the first differing character decides, and a proper
/// prefix comes before the longer text.
pub open spec fn before(a: Seq<char>, b: Seq<char>) -> bool
    decreases a.len(),
{
    if b.len() == 0 {
        false
    } else if a.len() == 0 {
        true
    } else if a[0] != b[0] {
        a[0] < b[0]
    } else {
        before(a.skip(1), b.skip(1))
    }
}

/// Whether `a` comes before `b`.
pub fn is_before(a: &str, b: &str) -> (r: bool)
    ensures
        r == before(a@, b@),
{
    let x = chars_of(a);
    let y = chars_of(b);
    let mut i: usize = 0;
    assert(a@.skip(0) =~= a@);
    assert(b@.skip(0) =~= b@);
    while i < x.len() && i < y.len()
        invariant
            i <= x@.len(),
            i <= y@.len(),
            x@ == a@,
            y@ == b@,
            before(a@, b@) == before(a@.skip(i as int), b@.skip(i as int)),
        decreases x@.len() - i,
    {
        if x[i] != y[i] {
            return x[i] < y[i];
        }
        assert(a@.skip(i as int).skip(1) =~= a@.skip(i + 1));
        assert(b@.skip(i as int).skip(1) =~= b@.skip(i + 1));
        i += 1;
    }
    i < y.len()
}

/// The order is asymmetric.
pub proof fn before_asymmetric(a: Seq<char>, b: Seq<char>)
    ensures
        !(before(a, b) && before(b, a)),
    decreases a.len(),
{
    if a.len() > 0 && b.len() > 0 {
        before_asymmetric(a.skip(1), b.skip(1));
    }
}

/// The order is transitive.
pub proof fn before_transitive(a: Seq<char>, b: Seq<char>, c: Seq<char>)
    requires
        before(a, b),
        before(b, c),
    ensures
        before(a, c),
    decreases a.len(),
{
    if a.len() > 0 && b.len() > 0 && c.len() > 0 && a[0] == b[0] && b[0] == c[0] {
        before_transitive(a.skip(1), b.skip(1), c.skip(1));
    }
}

/// Of two different texts one comes before the other.
pub proof fn before_total(a: Seq<char>, b: Seq<char>)
    ensures
        a == b || before(a, b) || before(b, a),
    decreases a.len(),
{
    if a.len() > 0 && b.len() > 0 && a[0] == b[0] {
        before_total(a.skip(1), b.skip(1));
        if a.skip(1) == b.skip(1) {
            assert(a =~= seq![a[0]] + a.skip(1));
            assert(b =~= seq![b[0]] + b.skip(1));
        }
    } else if a.len() == 0 && b.len() == 0 {
        assert(a =~= b);
    }
}

/// Where the first `c` at or after `from` stands, or the length of `s`.
pub open spec fn find_char(s: Seq<char>, c: char, from: int) -> int
    decreases s.len() - from,
{
    if from >= s.len() {
        s.len() as int
    } else if s[from] == c {
        from
    } else {
        find_char(s, c, from + 1)
    }
}

/// A found place is not before the start of the search nor past the end.
pub proof fn find_char_bounds(s: Seq<char>, c: char, from: int)
    ensures
        from <= s.len() ==> from <= find_char(s, c, from) <= s.len(),
        from > s.len() ==> find_char(s, c, from) == s.len(),
    decreases s.len() - from,
{
    if from < s.len() && s[from] != c {
        find_char_bounds(s, c, from + 1);
    }
}

/// Where the first `c` at or after `from` stands, or the length of `v`.
pub fn find(v: &Vec<char>, c: char, from: usize) -> (r: usize)
    requires
        from <= v@.len(),
    ensures
        r == find_char(v@, c, from as int),
        from <= r <= v@.len(),
{
    let mut i: usize = from;
    while i < v.len() && v[i] != c
        invariant
            from <= i <= v@.len(),
            find_char(v@, c, from as int) == find_char(v@, c, i as int),
        decreases v@.len() - i,
    {
        i = i + 1;
    }
    i
}

/// Texts that differ from each other and all occur in `list` are not more than
/// `list` has.
pub proof fn distinct_within(some: Seq<Seq<char>>, list: Seq<Seq<char>>)
    requires
        some.no_duplicates(),
        forall|i: int| 0 <= i < some.len() ==> list.contains(#[trigger] some[i]),
    ensures
        some.len() <= list.len(),
{
    some.unique_seq_to_set();
    list.lemma_cardinality_of_set();
    assert(some.to_set().subset_of(list.to_set()));
    vstd::set_lib::lemma_len_subset(some.to_set(), list.to_set());
}

// ---------------------------------------------------------------------------
// Laws of trimming
// ---------------------------------------------------------------------------

/// Whether the characters from `i` to `j` are white space.
pub open spec fn blank(s: Seq<char>, i: int, j: int) -> bool {
    forall|k: int| i <= k < j ==> is_space(#[trigger] s[k])
}

/// Whether the part of `s` from `i` to `j` is what is between the white space at
/// its start and that at its end.
pub open spec fn is_core(s: Seq<char>, i: int, j: int) -> bool {
    &&& 0 <= i <= j <= s.len()
    &&& blank(s, 0, i)
    &&& blank(s, j, s.len() as int)
    &&& i < j ==> !is_space(s[i]) && !is_space(s[j - 1])
}

proof fn lemma_trimmed_start(s: Seq<char>) -> (n: int)
    ensures
        0 <= n <= s.len(),
        trimmed_start(s) == s.skip(n),
        blank(s, 0, n),
        n < s.len() ==> !is_space(s[n]),
    decreases s.len(),
{
    if s.len() > 0 && is_space(s[0]) {
        let t = s.skip(1);
        let m = lemma_trimmed_start(t);
        assert(t.skip(m) =~= s.skip(m + 1));
        assert forall|k: int| 0 <= k < m + 1 implies is_space(#[trigger] s[k]) by {
            if k > 0 {
                assert(t[k - 1] == s[k]);
            }
        }
        m + 1
    } else {
        assert(s.skip(0) =~= s);
        0
    }
}

proof fn lemma_trimmed_end(s: Seq<char>) -> (n: int)
    ensures
        0 <= n <= s.len(),
        trimmed_end(s) == s.take(n),
        blank(s, n, s.len() as int),
        n > 0 ==> !is_space(s[n - 1]),
    decreases s.len(),
{
    if s.len() > 0 && is_space(s.last()) {
        let t = s.drop_last();
        let m = lemma_trimmed_end(t);
        assert(t.take(m) =~= s.take(m));
        assert forall|k: int| m <= k < s.len() implies is_space(#[trigger] s[k]) by {
            if k < t.len() {
                assert(t[k] == s[k]);
            }
        }
        m
    } else {
        assert(s.take(s.len() as int) =~= s);
        s.len() as int
    }
}

/// Trimming takes the white space at both ends away and nothing else.
pub proof fn trimming_keeps_core(s: Seq<char>)
    ensures
        exists|i: int, j: int| #[trigger] is_core(s, i, j) && trimmed(s) == s.subrange(i, j),
        trimmed(s).len() == 0 <==> blank(s, 0, s.len() as int),
{
    let a = lemma_trimmed_start(s);
    let t = s.skip(a);
    let n = lemma_trimmed_end(t);
    let j = a + n;
    assert(t.take(n) =~= s.subrange(a, j));
    assert forall|k: int| j <= k < s.len() implies is_space(#[trigger] s[k]) by {
        assert(t[k - a] == s[k]);
    }
    if n > 0 {
        assert(t[n - 1] == s[j - 1]);
    }
    assert(is_core(s, a, j));
}

/// A text without white space at its ends stays as it is, with white space put
/// around it too.
pub proof fn trimming_undoes_padding(s: Seq<char>, front: Seq<char>, back: Seq<char>)
    requires
        s.len() > 0,
        !is_space(s[0]),
        !is_space(s.last()),
        blank(front, 0, front.len() as int),
        blank(back, 0, back.len() as int),
    ensures
        trimmed(front + s + back) == s,
        trimmed(s) == s,
{
    lemma_core_is_trimmed(front + s + back, front.len() as int, (front + s).len() as int);
    assert((front + s + back).subrange(front.len() as int, (front + s).len() as int) =~= s);
    lemma_core_is_trimmed(s, 0, s.len() as int);
    assert(s.subrange(0, s.len() as int) =~= s);
}

proof fn lemma_core_is_trimmed(s: Seq<char>, i: int, j: int)
    requires
        0 <= i < j <= s.len(),
        blank(s, 0, i),
        forall|k: int| j <= k < s.len() ==> is_space(#[trigger] s[k]),
        !is_space(s[i]),
        !is_space(s[j - 1]),
    ensures
        trimmed(s) == s.subrange(i, j),
{
    trimming_keeps_core(s);
    let (a, b) = choose|a: int, b: int|
        #[trigger] is_core(s, a, b) && trimmed(s) == s.subrange(a, b);
    if a >= b {
        if i < a {
            assert(is_space(s[i]));
        } else {
            assert(is_space(s[i]));
        }
    }
    if a < i {
        assert(is_space(s[a]));
    }
    if i < a {
        assert(is_space(s[i]));
    }
    if b < j {
        assert(is_space(s[j - 1]));
    }
    if j < b {
        assert(is_space(s[b - 1]));
    }
}

/// One text more adds itself, trimmed, at the end, or nothing where it is blank.
pub proof fn trimmed_one_more(list: Seq<Seq<char>>, s: Seq<char>)
    ensures
        blank(s, 0, s.len() as int) ==> trimmed_nonempty(list.push(s)) == trimmed_nonempty(list),
        !blank(s, 0, s.len() as int) ==> trimmed_nonempty(list.push(s)) == trimmed_nonempty(
            list,
        ).push(trimmed(s)),
{
    reveal(Seq::filter);
    trimming_keeps_core(s);
    let trim = |s: Seq<char>| trimmed(s);
    let all = list.push(s).map_values(trim);
    assert(all.drop_last() =~= list.map_values(trim));
    assert(all.last() == trimmed(s));
}

/// Nothing is left of nothing.
pub proof fn trimmed_of_none()
    ensures
        trimmed_nonempty(Seq::empty()) == Seq::<Seq<char>>::empty(),
{
    reveal(Seq::filter);
    assert(Seq::<Seq<char>>::empty().map_values(|s: Seq<char>| trimmed(s)) =~= Seq::empty());
}

/// What is left of two lists one behind the other is what is left of each.
pub proof fn trimmed_of_both(a: Seq<Seq<char>>, b: Seq<Seq<char>>)
    ensures
        trimmed_nonempty(a + b) == trimmed_nonempty(a) + trimmed_nonempty(b),
    decreases b.len(),
{
    if b.len() == 0 {
        assert(a + b =~= a);
        assert(b =~= Seq::empty());
        trimmed_of_none();
        assert(trimmed_nonempty(a) + trimmed_nonempty(b) =~= trimmed_nonempty(a));
    } else {
        let c = b.drop_last();
        let s = b.last();
        trimmed_of_both(a, c);
        assert(a + b =~= (a + c).push(s));
        assert(b =~= c.push(s));
        trimmed_one_more(a + c, s);
        trimmed_one_more(c, s);
        assert(trimmed_nonempty(a + b) =~= trimmed_nonempty(a) + trimmed_nonempty(b));
    }
}

/// What is left of a list is what its texts are without white space around them,
/// but for blank ones, and nothing else.
pub proof fn trimmed_holds(list: Seq<Seq<char>>, x: Seq<char>)
    ensures
        trimmed_nonempty(list).contains(x) <==> exists|i: int|
            0 <= i < list.len() && trimmed(#[trigger] list[i]) == x && !blank(
                list[i],
                0,
                list[i].len() as int,
            ),
    decreases list.len(),
{
    if list.len() == 0 {
        assert(list =~= Seq::empty());
        trimmed_of_none();
    } else {
        let rest = list.drop_last();
        let s = list.last();
        trimmed_holds(rest, x);
        assert(list =~= rest.push(s));
        trimmed_one_more(rest, s);
        let left = trimmed_nonempty(rest);
        let now = trimmed_nonempty(list);
        if now.contains(x) {
            let k = choose|k: int| 0 <= k < now.len() && now[k] == x;
            if k < left.len() {
                assert(left[k] == x);
                let i = choose|i: int|
                    0 <= i < rest.len() && trimmed(#[trigger] rest[i]) == x && !blank(
                        rest[i],
                        0,
                        rest[i].len() as int,
                    );
                assert(list[i] == rest[i]);
            } else {
                assert(list[list.len() - 1] == s);
            }
        }
        if exists|i: int|
            0 <= i < list.len() && trimmed(#[trigger] list[i]) == x && !blank(
                list[i],
                0,
                list[i].len() as int,
            ) {
            let i = choose|i: int|
                0 <= i < list.len() && trimmed(#[trigger] list[i]) == x && !blank(
                    list[i],
                    0,
                    list[i].len() as int,
                );
            if i < rest.len() {
                assert(rest[i] == list[i]);
                let k = choose|k: int| 0 <= k < left.len() && left[k] == x;
                assert(now[k] == x);
            } else {
                assert(now[left.len() as int] == x);
            }
        }
    }
}

// ---------------------------------------------------------------------------
// Laws of numbers, order and joined texts
// ---------------------------------------------------------------------------

/// The number that decimal digits stand for.
pub open spec fn number_of(s: Seq<char>) -> int
    decreases s.len(),
{
    if s.len() == 0 {
        0
    } else {
        number_of(s.drop_last()) * 10 + (s.last() as int - '0' as int)
    }
}

/// What is written in decimal stands for the number, and does not start with `0`
/// unless it is that alone.
pub proof fn decimal_tells_number(n: nat)
    ensures
        number_of(decimal(n)) == n,
        decimal(n)[0] == '0' ==> n == 0,
    decreases n,
{
    decimal_digits(n);
    let s = decimal(n);
    if n < 10 {
        assert(s.drop_last() =~= Seq::empty());
        assert(number_of(s.drop_last()) == 0);
        assert(s.last() as int == 48 + n);
    } else {
        decimal_digits(n / 10);
        decimal_tells_number(n / 10);
        assert(s.drop_last() =~= decimal(n / 10));
        assert(s.last() as int == 48 + n % 10);
        assert(s[0] == decimal(n / 10)[0]);
    }
}

/// The first character that differs decides which of two texts comes first, and a
/// text comes before a longer one that starts with it.
pub proof fn first_difference_decides(
    common: Seq<char>,
    a: char,
    b: char,
    x: Seq<char>,
    y: Seq<char>,
)
    requires
        a < b,
    ensures
        before(common + seq![a] + x, common + seq![b] + y),
        !before(common + seq![b] + y, common + seq![a] + x),
        before(common, common + seq![a] + x),
        !before(common, common),
        !before(common + seq![a] + x, common),
    decreases common.len(),
{
    let s = common + seq![a] + x;
    let t = common + seq![b] + y;
    if common.len() > 0 {
        let rest = common.skip(1);
        first_difference_decides(rest, a, b, x, y);
        assert(s.skip(1) =~= rest + seq![a] + x);
        assert(t.skip(1) =~= rest + seq![b] + y);
        assert(s[0] == common[0] && t[0] == common[0]);
    } else {
        assert(s[0] == a && t[0] == b);
    }
}

/// One part more is put behind the others with the separator before it.
pub proof fn joined_one_more(parts: Seq<Seq<char>>, part: Seq<char>, sep: Seq<char>)
    ensures
        joined(Seq::empty(), sep) == Seq::<char>::empty(),
        joined(seq![part], sep) == part,
        parts.len() > 0 ==> joined(parts.push(part), sep) == joined(parts, sep) + sep + part,
{
    assert(parts.push(part).drop_last() =~= parts);
}

/// Only the one character is replaced, wherever it stands.
pub proof fn replacing_keeps_the_rest(s: Seq<char>, from: char, to: char, i: int)
    requires
        0 <= i < s.len(),
    ensures
        replaced(s, from, to).len() == s.len(),
        s[i] == from ==> replaced(s, from, to)[i] == to,
        s[i] != from ==> replaced(s, from, to)[i] == s[i],
        from != to ==> !replaced(s, from, to).contains(from),
{
    let r = replaced(s, from, to);
    if from != to && r.contains(from) {
        let k = choose|k: int| 0 <= k < r.len() && r[k] == from;
        assert(r[k] == if s[k] == from { to } else { s[k] });
    }
}

/// A text ends in what was put behind it.
pub proof fn ends_in_what_is_put_behind(head: Seq<char>, tail: Seq<char>)
    ensures
        ends_in(head + tail, tail),
        tail.len() > head.len() ==> !ends_in(head, tail),
{
    assert((head + tail).skip((head + tail).len() - tail.len()) =~= tail);
}

/// Of the ASCII characters, blanks and the five from tab to carriage return are white
/// space, and no other.
pub proof fn white_space_of_ascii(c: char)
    requires
        c < '\u{80}',
    ensures
        is_space(c) <==> c == ' ' || c == '\t' || c == '\n' || c == '\r' || c == '\u{b}' || c
            == '\u{c}',
{
}

} // verus!
