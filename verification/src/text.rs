//! Plain text on sequences of characters: decimal numbers, splitting,
//! trimming, joining and the order of names.

use vstd::prelude::*;
use vstd::string::StringExecFns;

verus! {

/// `String::push` appends one character to the end of the string.
pub assume_specification[ String::push ](s: &mut String, c: char)
    ensures
        final(s)@ == old(s)@.push(c),
;

/// The decimal digit of value `d`, for `d` below ten.
pub open spec fn digit(d: nat) -> char {
    (48 + d) as char
}

/// The decimal digits of `n`, most significant first and without leading zeros.
pub open spec fn dec(n: nat) -> Seq<char>
    decreases n,
{
    if n < 10 {
        seq![digit(n)]
    } else {
        dec(n / 10).push(digit(n % 10))
    }
}

/// The decimal digits of `n` with a minus sign in front of a negative number.
pub open spec fn dec_signed(n: int) -> Seq<char> {
    if n < 0 {
        seq!['-'] + dec((-n) as nat)
    } else {
        dec(n as nat)
    }
}

/// Appends the decimal digits of `n`.
pub fn push_dec(s: &mut String, n: u64)
    ensures
        final(s)@ == old(s)@ + dec(n as nat),
    decreases n,
{
    if n >= 10 {
        push_dec(s, n / 10);
    }
    let d: u8 = (n % 10) as u8;
    s.push((48 + d) as char);
}

/// Appends the decimal form of a signed number.
pub fn push_dec_signed(s: &mut String, n: i32)
    ensures
        final(s)@ == old(s)@ + dec_signed(n as int),
{
    if n < 0 {
        s.push('-');
        push_dec(s, (-(n as i64)) as u64);
    } else {
        push_dec(s, n as u64);
    }
}

/// The text of bytes that need not be UTF-8.
pub uninterp spec fn lossy_text(bytes: Seq<u8>) -> Seq<char>;

/// Calls `String::from_utf8_lossy`. Bytes that are UTF-8 give their text; what other bytes
/// give depends on the bytes alone, and nothing more is said of it.
#[verifier::external_body]
pub(crate) fn lossy(bytes: &[u8]) -> (s: String)
    ensures
        s@ == lossy_text(bytes@),
        vstd::utf8::valid_utf8(bytes@) ==> s@ == vstd::utf8::decode_utf8(bytes@),
{
    String::from_utf8_lossy(bytes).into_owned()
}

/// The characters of a string, in order.
pub fn chars_of(s: &str) -> (cs: Vec<char>)
    ensures
        cs@ == s@,
{
    let mut cs: Vec<char> = Vec::new();
    for c in it: s.chars()
        invariant
            cs@ == it.seq().take(it.index()),
            it.seq() == s@,
    {
        cs.push(c);
    }
    cs
}

/// The string of the given characters.
pub fn string_of(cs: &[char]) -> (s: String)
    ensures
        s@ == cs@,
{
    let mut s = String::new();
    for i in 0..cs.len()
        invariant
            s@ == cs@.take(i as int),
    {
        s.push(cs[i]);
    }
    s
}

/// A set of characters.
#[derive(Clone, Copy)]
pub enum Class {
    /// The characters of white space.
    White,
    /// One character.
    One(char),
    /// One character, and the characters of white space.
    WhiteOr(char),
}

/// The characters of white space.
pub open spec fn is_white(c: char) -> bool {
    ||| 0x9 <= c as int <= 0xd
    ||| c as int == 0x20
    ||| c as int == 0x85
    ||| c as int == 0xa0
    ||| c as int == 0x1680
    ||| 0x2000 <= c as int <= 0x200a
    ||| c as int == 0x2028
    ||| c as int == 0x2029
    ||| c as int == 0x202f
    ||| c as int == 0x205f
    ||| c as int == 0x3000
}

impl Class {
    /// Whether a character is in the set.
    pub open spec fn has(self, c: char) -> bool {
        match self {
            Class::White => is_white(c),
            Class::One(d) => c == d,
            Class::WhiteOr(d) => c == d || is_white(c),
        }
    }

    fn holds(self, c: char) -> (b: bool)
        ensures
            b == self.has(c),
    {
        let n: u32 = c as u32;
        let white: bool = (0x9 <= n && n <= 0xd) || n == 0x20 || n == 0x85 || n == 0xa0 || n == 0x1680 || (
        0x2000 <= n && n <= 0x200a) || n == 0x2028 || n == 0x2029 || n == 0x202f || n == 0x205f || n
            == 0x3000;
        match self {
            Class::White => white,
            Class::One(d) => c == d,
            Class::WhiteOr(d) => c == d || white,
        }
    }
}

/// The length of the longest beginning of `s` whose characters are all in the set
/// (`want`) or all outside of it (`!want`).
pub open spec fn lead(s: Seq<char>, class: Class, want: bool) -> nat
    decreases s.len(),
{
    if s.len() == 0 || class.has(s[0]) != want {
        0
    } else {
        1 + lead(s.skip(1), class, want)
    }
}

/// A beginning is known by its characters and by the one after it.
pub proof fn lemma_lead(s: Seq<char>, class: Class, want: bool, k: int)
    requires
        0 <= k <= s.len(),
        forall|i: int| 0 <= i < k ==> class.has(#[trigger] s[i]) == want,
        k < s.len() ==> class.has(s[k]) != want,
    ensures
        lead(s, class, want) == k,
    decreases k,
{
    if k > 0 {
        let t = s.skip(1);
        assert forall|i: int| 0 <= i < k - 1 implies class.has(#[trigger] t[i]) == want by {
            assert(t[i] == s[i + 1]);
        }
        lemma_lead(t, class, want, k - 1);
        assert(class.has(s[0]) == want);
    }
}

/// The characters of the longest beginning are all in the set, or all outside of it.
pub proof fn lemma_lead_all(s: Seq<char>, class: Class, want: bool)
    ensures
        lead(s, class, want) <= s.len(),
        forall|i: int|
            0 <= i < lead(s, class, want) ==> class.has(#[trigger] s[i]) == want,
    decreases s.len(),
{
    if s.len() > 0 && class.has(s[0]) == want {
        let t = s.skip(1);
        lemma_lead_all(t, class, want);
        assert forall|i: int| 0 <= i < lead(s, class, want) implies class.has(#[trigger] s[i])
            == want by {
            if i > 0 {
                assert(t[i - 1] == s[i]);
            }
        }
    }
}

/// The pieces of `s` between the characters of the set.
pub open spec fn split(s: Seq<char>, class: Class) -> Seq<Seq<char>>
    decreases s.len(),
{
    let k = lead(s, class, false);
    if k >= s.len() {
        seq![s]
    } else {
        seq![s.take(k as int)] + split(s.skip(k as int + 1), class)
    }
}

/// The pieces that are not empty.
pub open spec fn non_empty(pieces: Seq<Seq<char>>) -> Seq<Seq<char>>
    decreases pieces.len(),
{
    if pieces.len() == 0 {
        Seq::empty()
    } else if pieces.last().len() == 0 {
        non_empty(pieces.drop_last())
    } else {
        non_empty(pieces.drop_last()).push(pieces.last())
    }
}

/// The words of a text: what stands between white space.
pub open spec fn words(s: Seq<char>) -> Seq<Seq<char>> {
    non_empty(split(s, Class::White))
}

/// Strings as sequences of characters.
pub open spec fn views(v: Seq<String>) -> Seq<Seq<char>> {
    v.map_values(|s: String| s@)
}

/// The string of the characters from `from` up to `to`.
pub fn piece(cs: &[char], from: usize, to: usize) -> (s: String)
    requires
        from <= to <= cs@.len(),
    ensures
        s@ == cs@.subrange(from as int, to as int),
{
    let mut s = String::new();
    for i in from..to
        invariant
            from <= to <= cs@.len(),
            s@ == cs@.subrange(from as int, i as int),
    {
        s.push(cs[i]);
    }
    s
}

/// The pieces of a text between the characters of a set.
pub fn split_at_class(cs: &[char], class: Class) -> (v: Vec<String>)
    ensures
        views(v@) == split(cs@, class),
{
    let mut v: Vec<String> = Vec::new();
    let mut start: usize = 0;
    let mut i: usize = 0;
    proof {
        assert(cs@.skip(0) =~= cs@);
        assert(views(v@) + split(cs@, class) =~= split(cs@, class));
    }
    while i < cs.len()
        invariant
            start <= i <= cs@.len(),
            split(cs@, class) == views(v@) + split(cs@.skip(start as int), class),
            forall|j: int| start <= j < i ==> !class.has(#[trigger] cs@[j]),
        decreases cs@.len() - i,
    {
        if class.holds(cs[i]) {
            let p = piece(cs, start, i);
            proof {
                let rest = cs@.skip(start as int);
                let k = i - start;
                assert forall|j: int| 0 <= j < k implies class.has(#[trigger] rest[j]) == false by {
                    assert(rest[j] == cs@[start + j]);
                }
                lemma_lead(rest, class, false, k);
                assert(rest.take(k) =~= p@);
                assert(rest.skip(k + 1) =~= cs@.skip(i + 1));
                assert(views(v@.push(p)) =~= views(v@).push(p@));
                assert(views(v@) + (seq![p@] + split(cs@.skip(i + 1), class)) =~= views(v@.push(p))
                    + split(cs@.skip(i + 1), class));
            }
            v.push(p);
            start = i + 1;
        }
        i = i + 1;
    }
    let p = piece(cs, start, cs.len());
    proof {
        let rest = cs@.skip(start as int);
        assert forall|j: int| 0 <= j < rest.len() implies class.has(#[trigger] rest[j]) == false by {
            assert(rest[j] == cs@[start + j]);
        }
        lemma_lead(rest, class, false, rest.len() as int);
        assert(p@ =~= rest);
        assert(views(v@.push(p)) =~= views(v@) + seq![p@]);
    }
    v.push(p);
    v
}

/// The words of a text, in order.
pub fn split_whitespace(s: &str) -> (v: Vec<String>)
    ensures
        views(v@) == words(s@),
{
    let cs = chars_of(s);
    let pieces = split_at_class(cs.as_slice(), Class::White);
    let mut v: Vec<String> = Vec::new();
    let ghost all = views(pieces@);
    for p in it: pieces
        invariant
            views(it.seq()) == all,
            views(v@) == non_empty(all.take(it.index())),
    {
        proof {
            let i = it.index();
            assert(all.take(i + 1).drop_last() =~= all.take(i));
            assert(all.take(i + 1).last() == p@);
        }
        if p.as_str().unicode_len() > 0 {
            proof {
                assert(views(v@.push(p)) =~= views(v@).push(p@));
            }
            v.push(p);
        }
    }
    proof {
        assert(all.take(all.len() as int) =~= all);
    }
    v
}

/// `s` without the characters of the set that it begins with.
pub open spec fn trim_start(s: Seq<char>, class: Class) -> Seq<char> {
    s.skip(lead(s, class, true) as int)
}

/// `s` without the characters of the set that it ends with.
pub open spec fn trim_end(s: Seq<char>, class: Class) -> Seq<char>
    decreases s.len(),
{
    if s.len() > 0 && class.has(s.last()) {
        trim_end(s.drop_last(), class)
    } else {
        s
    }
}

/// `s` without white space at its beginning and end.
pub open spec fn trim(s: Seq<char>) -> Seq<char> {
    trim_end(trim_start(s, Class::White), Class::White)
}

/// The text without the characters of the set that it begins with.
pub fn without_start(cs: &[char], class: Class) -> (t: &[char])
    ensures
        t@ == trim_start(cs@, class),
{
    let mut i: usize = 0;
    while i < cs.len() && class.holds(cs[i])
        invariant
            i <= cs@.len(),
            forall|j: int| 0 <= j < i ==> class.has(#[trigger] cs@[j]),
        decreases cs@.len() - i,
    {
        i = i + 1;
    }
    proof {
        lemma_lead(cs@, class, true, i as int);
        assert(cs@.skip(i as int) =~= cs@.subrange(i as int, cs@.len() as int));
    }
    vstd::slice::slice_subrange(cs, i, cs.len())
}

/// The text before the first character of the set.
pub fn before_class(cs: &[char], class: Class) -> (t: &[char])
    ensures
        t@ == cs@.take(lead(cs@, class, false) as int),
{
    let mut i: usize = 0;
    while i < cs.len() && !class.holds(cs[i])
        invariant
            i <= cs@.len(),
            forall|j: int| 0 <= j < i ==> !class.has(#[trigger] cs@[j]),
        decreases cs@.len() - i,
    {
        i = i + 1;
    }
    proof {
        lemma_lead(cs@, class, false, i as int);
        assert(cs@.take(i as int) =~= cs@.subrange(0, i as int));
    }
    vstd::slice::slice_subrange(cs, 0, i)
}

/// The text without the characters of the set that it ends with.
pub fn without_end(cs: &[char], class: Class) -> (t: &[char])
    ensures
        t@ == trim_end(cs@, class),
{
    let mut n: usize = cs.len();
    proof {
        assert(cs@.take(n as int) =~= cs@);
    }
    while n > 0 && class.holds(cs[n - 1])
        invariant
            n <= cs@.len(),
            trim_end(cs@, class) == trim_end(cs@.take(n as int), class),
        decreases n,
    {
        proof {
            assert(cs@.take(n as int).drop_last() =~= cs@.take(n - 1));
        }
        n = n - 1;
    }
    proof {
        assert(cs@.take(n as int) =~= cs@.subrange(0, n as int));
    }
    vstd::slice::slice_subrange(cs, 0, n)
}

/// The text without white space at its beginning and end.
pub fn trimmed(cs: &[char]) -> (t: &[char])
    ensures
        t@ == trim(cs@),
{
    without_end(without_start(cs, Class::White), Class::White)
}

/// Whether a text begins with `p`.
pub fn starts_with(cs: &[char], p: &str) -> (b: bool)
    ensures
        b == p@.is_prefix_of(cs@),
{
    let ps = chars_of(p);
    if ps.len() > cs.len() {
        return false;
    }
    for i in 0..ps.len()
        invariant
            ps@ == p@,
            ps@.len() <= cs@.len(),
            forall|j: int| 0 <= j < i ==> ps@[j] == cs@[j],
    {
        if ps[i] != cs[i] {
            proof {
                assert(p@[i as int] != cs@.subrange(0, p@.len() as int)[i as int]);
            }
            return false;
        }
    }
    proof {
        assert(p@ =~= cs@.subrange(0, p@.len() as int));
    }
    true
}

/// What follows `p` in a text that begins with it.
pub fn after_prefix<'a>(cs: &'a [char], p: &str) -> (r: Option<&'a [char]>)
    ensures
        match r {
            Some(t) => p@.is_prefix_of(cs@) && t@ == cs@.skip(p@.len() as int),
            None => !p@.is_prefix_of(cs@),
        },
{
    if starts_with(cs, p) {
        let n: usize = chars_of(p).len();
        proof {
            assert(cs@.skip(n as int) =~= cs@.subrange(n as int, cs@.len() as int));
        }
        Some(vstd::slice::slice_subrange(cs, n, cs.len()))
    } else {
        None
    }
}

/// Whether a text is the given one.
pub fn same(cs: &[char], p: &str) -> (b: bool)
    ensures
        b == (cs@ == p@),
{
    let ps = chars_of(p);
    if ps.len() != cs.len() {
        return false;
    }
    for i in 0..ps.len()
        invariant
            ps@ == p@,
            ps@.len() == cs@.len(),
            forall|j: int| 0 <= j < i ==> ps@[j] == cs@[j],
    {
        if ps[i] != cs[i] {
            return false;
        }
    }
    proof {
        assert(cs@ =~= p@);
    }
    true
}

/// Whether two strings are the same.
pub fn equal(a: &str, b: &str) -> (r: bool)
    ensures
        r == (a@ == b@),
{
    let cs = chars_of(a);
    same(cs.as_slice(), b)
}

/// A line without a carriage return at its end.
pub open spec fn strip_cr(s: Seq<char>) -> Seq<char> {
    if s.len() > 0 && s.last() == '\r' {
        s.drop_last()
    } else {
        s
    }
}

/// The lines of a text. A line ends with a line feed, or a carriage return and a line
/// feed; the last one may do without.
pub open spec fn lines(s: Seq<char>) -> Seq<Seq<char>> {
    let pieces = split(s, Class::One('\n'));
    let ended = pieces.drop_last().map_values(|p: Seq<char>| strip_cr(p));
    if pieces.last().len() == 0 {
        ended
    } else {
        ended.push(pieces.last())
    }
}

/// The lines of a text.
pub fn text_lines(s: &str) -> (v: Vec<Vec<char>>)
    ensures
        v@.map_values(|l: Vec<char>| l@) == lines(s@),
{
    let cs = chars_of(s);
    let pieces = split_at_class(cs.as_slice(), Class::One('\n'));
    let ghost all = views(pieces@);
    let mut v: Vec<Vec<char>> = Vec::new();
    let n: usize = pieces.len();
    proof {
        assert(all.len() > 0);
    }
    for i in 0..(n - 1)
        invariant
            n == pieces@.len(),
            n > 0,
            all == views(pieces@),
            v@.len() == i,
            forall|j: int| 0 <= j < i ==> (#[trigger] v@[j])@ == strip_cr(all[j]),
    {
        let mut l = chars_of(pieces[i].as_str());
        if l.len() > 0 && l[l.len() - 1] == '\r' {
            let _ = l.pop();
        }
        proof {
            assert(l@ == strip_cr(all[i as int]));
        }
        v.push(l);
    }
    proof {
        assert(v@.map_values(|l: Vec<char>| l@) =~= all.drop_last().map_values(
            |p: Seq<char>| strip_cr(p),
        ));
    }
    let last = chars_of(pieces[n - 1].as_str());
    if last.len() > 0 {
        proof {
            assert(v@.push(last).map_values(|l: Vec<char>| l@) =~= lines(s@));
        }
        v.push(last);
    }
    v
}

/// The value of a decimal digit.
pub open spec fn digit_value(c: char) -> Option<nat> {
    if '0' <= c <= '9' {
        Some((c as int - 48) as nat)
    } else {
        None
    }
}

/// The number that decimal digits stand for; `None` where another character is among
/// them.
pub open spec fn digits_value(s: Seq<char>) -> Option<nat>
    decreases s.len(),
{
    if s.len() == 0 {
        Some(0)
    } else {
        match (digits_value(s.drop_last()), digit_value(s.last())) {
            (Some(n), Some(d)) => Some(n * 10 + d),
            _ => None,
        }
    }
}

/// The number that a text stands for: decimal digits, with or without a plus sign in
/// front, of a value up to `max`.
pub open spec fn number(s: Seq<char>, max: nat) -> Option<nat> {
    let digits = if s.len() > 0 && s[0] == '+' {
        s.skip(1)
    } else {
        s
    };
    if digits.len() == 0 {
        None
    } else {
        match digits_value(digits) {
            Some(n) => if n <= max {
                Some(n)
            } else {
                None
            },
            None => None,
        }
    }
}

proof fn lemma_digits_prefix(s: Seq<char>, k: int)
    requires
        0 <= k <= s.len(),
    ensures
        digits_value(s.take(k)) is None ==> digits_value(s) is None,
        digits_value(s) is Some ==> digits_value(s.take(k)) is Some && digits_value(s.take(k))->0
            <= digits_value(s)->0,
    decreases s.len(),
{
    if k == s.len() {
        assert(s.take(k) =~= s);
    } else {
        lemma_digits_prefix(s.drop_last(), k);
        assert(s.drop_last().take(k) =~= s.take(k));
    }
}

/// The number that a text stands for, if it is at most `max`.
pub fn parse_number(cs: &[char], max: u64) -> (r: Option<u64>)
    ensures
        match r {
            Some(n) => number(cs@, max as nat) == Some(n as nat),
            None => number(cs@, max as nat) is None,
        },
{
    let start: usize = if cs.len() > 0 && cs[0] == '+' {
        1
    } else {
        0
    };
    let ghost digits = if start == 1 {
        cs@.skip(1)
    } else {
        cs@
    };
    proof {
        assert(cs@.skip(start as int) =~= digits);
    }
    if start == cs.len() {
        return None;
    }
    let mut n: u64 = 0;
    for i in start..cs.len()
        invariant
            start <= i <= cs@.len(),
            start < cs@.len(),
            digits == cs@.skip(start as int),
            digits_value(digits.take(i - start)) == Some(n as nat),
            n <= max,
            number(cs@, max as nat) == (match digits_value(digits) {
                Some(n) => if n <= max {
                    Some(n)
                } else {
                    None
                },
                None => None,
            }),
    {
        let c: char = cs[i];
        proof {
            let k = i - start;
            assert(digits.take(k + 1).drop_last() =~= digits.take(k));
            assert(digits.take(k + 1).last() == c);
            lemma_digits_prefix(digits, k + 1);
        }
        if c < '0' || c > '9' {
            return None;
        }
        let d: u64 = c as u64 - 48;
        if n > max / 10 || (n == max / 10 && d > max % 10) {
            return None;
        }
        n = n * 10 + d;
    }
    proof {
        assert(digits.take(cs@.len() - start) =~= digits);
    }
    Some(n)
}

/// The parts, with `sep` between them.
pub open spec fn join(parts: Seq<Seq<char>>, sep: Seq<char>) -> Seq<char>
    decreases parts.len(),
{
    if parts.len() == 0 {
        Seq::empty()
    } else if parts.len() == 1 {
        parts[0]
    } else {
        join(parts.drop_last(), sep) + sep + parts.last()
    }
}

/// The parts, with a space between them.
pub fn joined(parts: &[String]) -> (s: String)
    ensures
        s@ == join(views(parts@), " "@),
{
    let mut s = String::new();
    let ghost all = views(parts@);
    for i in 0..parts.len()
        invariant
            all == views(parts@),
            s@ == join(all.take(i as int), " "@),
    {
        proof {
            assert(all.take(i + 1).drop_last() =~= all.take(i as int));
            if i == 0 {
                assert(s@ + parts@[0]@ =~= parts@[0]@);
            }
        }
        if i > 0 {
            s.append(" ");
        }
        s.append(parts[i].as_str());
    }
    proof {
        assert(all.take(all.len() as int) =~= all);
    }
    s
}

/// The digits of a number are digits, at least one, and stand for the number.
pub proof fn lemma_dec_digits(n: nat)
    ensures
        dec(n).len() > 0,
        digits_value(dec(n)) == Some(n),
        forall|i: int| 0 <= i < dec(n).len() ==> '0' <= #[trigger] dec(n)[i] <= '9',
    decreases n,
{
    reveal_with_fuel(digits_value, 2);
    if n < 10 {
        assert(dec(n).drop_last() =~= Seq::empty());
    } else {
        lemma_dec_digits(n / 10);
        assert(dec(n).drop_last() =~= dec(n / 10));
    }
}

/// A number is read back from the digits it is written with.
pub proof fn law_number_round_trip(n: nat, max: nat)
    requires
        n <= max,
    ensures
        number(dec(n), max) == Some(n),
{
    lemma_dec_digits(n);
    assert('0' <= dec(n)[0] <= '9');
}

/// The pieces of two texts with a separator between them are the pieces of the one and
/// then those of the other.
pub proof fn lemma_split_concat(a: Seq<char>, c: char, b: Seq<char>, class: Class)
    requires
        class.has(c),
    ensures
        split(a.push(c) + b, class) == split(a, class) + split(b, class),
    decreases a.len(),
{
    let s = a.push(c) + b;
    let k = lead(a, class, false) as int;
    lemma_lead_bounds(a, class, false);
    assert forall|i: int| 0 <= i < k implies class.has(#[trigger] s[i]) == false by {
        assert(s[i] == a[i]);
    }
    lemma_lead(s, class, false, k);
    if k == a.len() {
        assert(s.take(k) =~= a);
        assert(s.skip(k + 1) =~= b);
        assert(split(s, class) =~= split(a, class) + split(b, class));
    } else {
        let rest = a.skip(k + 1);
        lemma_split_concat(rest, c, b, class);
        assert(s.take(k) =~= a.take(k));
        assert(s.skip(k + 1) =~= rest.push(c) + b);
        assert(split(s, class) =~= split(a, class) + split(b, class));
    }
}

proof fn lemma_lead_bounds(s: Seq<char>, class: Class, want: bool)
    ensures
        lead(s, class, want) <= s.len(),
        forall|i: int| 0 <= i < lead(s, class, want) ==> class.has(#[trigger] s[i]) == want,
        lead(s, class, want) < s.len() ==> class.has(s[lead(s, class, want) as int]) != want,
    decreases s.len(),
{
    if s.len() > 0 && class.has(s[0]) == want {
        lemma_lead_bounds(s.skip(1), class, want);
        assert forall|i: int| 0 <= i < lead(s, class, want) implies class.has(#[trigger] s[i])
            == want by {
            if i > 0 {
                assert(s[i] == s.skip(1)[i - 1]);
            }
        }
    }
}

proof fn lemma_non_empty_concat(a: Seq<Seq<char>>, b: Seq<Seq<char>>)
    ensures
        non_empty(a + b) == non_empty(a) + non_empty(b),
    decreases b.len(),
{
    if b.len() == 0 {
        assert(a + b =~= a);
        assert(non_empty(a) + non_empty(b) =~= non_empty(a));
    } else {
        lemma_non_empty_concat(a, b.drop_last());
        assert((a + b).drop_last() =~= a + b.drop_last());
        assert(non_empty(a + b) =~= non_empty(a) + non_empty(b));
    }
}

/// A text that is not empty and holds no white space.
pub open spec fn is_word(w: Seq<char>) -> bool {
    w.len() > 0 && forall|i: int| 0 <= i < w.len() ==> !is_white(#[trigger] w[i])
}

proof fn lemma_one_word(w: Seq<char>)
    requires
        is_word(w),
    ensures
        words(w) == seq![w],
{
    assert forall|i: int| 0 <= i < w.len() implies Class::White.has(#[trigger] w[i]) == false by {}
    lemma_lead(w, Class::White, false, w.len() as int);
    reveal_with_fuel(non_empty, 2);
    assert(split(w, Class::White) =~= seq![w]);
    assert(seq![w].drop_last() =~= Seq::<Seq<char>>::empty());
    assert(words(w) =~= seq![w]);
}

/// Words that are joined by spaces are found again when the text is split.
pub proof fn law_words_of_joined(ws: Seq<Seq<char>>)
    requires
        forall|i: int| 0 <= i < ws.len() ==> is_word(#[trigger] ws[i]),
    ensures
        words(join(ws, " "@)) == ws,
    decreases ws.len(),
{
    reveal_strlit(" ");
    if ws.len() == 0 {
        reveal_with_fuel(non_empty, 2);
        let e = Seq::<char>::empty();
        assert(split(e, Class::White) =~= seq![e]);
        assert(seq![e].drop_last() =~= Seq::<Seq<char>>::empty());
        assert(words(join(ws, " "@)) =~= ws);
    } else if ws.len() == 1 {
        lemma_one_word(ws[0]);
        assert(ws =~= seq![ws[0]]);
    } else {
        let init = ws.drop_last();
        let w = ws.last();
        assert forall|i: int| 0 <= i < init.len() implies is_word(#[trigger] init[i]) by {
            assert(init[i] == ws[i]);
        }
        law_words_of_joined(init);
        lemma_one_word(w);
        assert(" "@ =~= seq![' ']);
        let a = join(init, " "@);
        assert(a + " "@ + w =~= a.push(' ') + w);
        lemma_split_concat(a, ' ', w, Class::White);
        lemma_non_empty_concat(split(a, Class::White), split(w, Class::White));
        assert(ws =~= init + seq![w]);
    }
}

/// Every word of a text is not empty and holds no white space.
pub proof fn law_words_are_words(s: Seq<char>, i: int)
    requires
        0 <= i < words(s).len(),
    ensures
        is_word(words(s)[i]),
{
    lemma_pieces_clean(s, Class::White);
    lemma_non_empty_from(split(s, Class::White), i);
}

proof fn lemma_pieces_clean(s: Seq<char>, class: Class)
    ensures
        split(s, class).len() > 0,
        forall|i: int, j: int|
            0 <= i < split(s, class).len() && 0 <= j < split(s, class)[i].len() ==> !class.has(
                #[trigger] split(s, class)[i][j],
            ),
    decreases s.len(),
{
    let k = lead(s, class, false) as int;
    lemma_lead_bounds(s, class, false);
    let all = split(s, class);
    if k >= s.len() {
        assert forall|i: int, j: int| 0 <= i < all.len() && 0 <= j < all[i].len() implies !class.has(
            #[trigger] all[i][j],
        ) by {
            assert(all[i] == s);
            assert(class.has(s[j]) == false);
        }
    } else {
        let rest = split(s.skip(k + 1), class);
        lemma_pieces_clean(s.skip(k + 1), class);
        assert forall|i: int, j: int| 0 <= i < all.len() && 0 <= j < all[i].len() implies !class.has(
            #[trigger] all[i][j],
        ) by {
            if i == 0 {
                assert(all[0] == s.take(k));
                assert(all[0][j] == s[j]);
                assert(class.has(s[j]) == false);
            } else {
                assert(all[i] == rest[i - 1]);
                assert(!class.has(rest[i - 1][j]));
            }
        }
    }
}

proof fn lemma_non_empty_from(pieces: Seq<Seq<char>>, i: int)
    requires
        0 <= i < non_empty(pieces).len(),
    ensures
        non_empty(pieces)[i].len() > 0,
        exists|j: int| 0 <= j < pieces.len() && #[trigger] pieces[j] == non_empty(pieces)[i],
    decreases pieces.len(),
{
    let before = non_empty(pieces.drop_last());
    if i < before.len() {
        lemma_non_empty_from(pieces.drop_last(), i);
        let j = choose|j: int|
            0 <= j < pieces.drop_last().len() && #[trigger] pieces.drop_last()[j] == before[i];
        assert(pieces[j] == before[i]);
    } else {
        assert(pieces[pieces.len() - 1] == pieces.last());
    }
}

/// A number below ten is written as its digit; one more digit behind the digits of a
/// number makes it ten times as great and adds the digit. A negative number has a minus
/// sign in front.
pub proof fn law_digits(n: nat, d: nat)
    requires
        d < 10,
    ensures
        dec(d) == seq![("0123456789"@)[d as int]],
        n > 0 ==> dec(10 * n + d) == dec(n).push(("0123456789"@)[d as int]),
        dec_signed(n as int) == dec(n),
        n > 0 ==> dec_signed(-n) == seq!['-'] + dec(n),
{
    reveal_strlit("0123456789");
    assert(digit(d) == ("0123456789"@)[d as int]);
    assert((10 * n + d) / 10 == n && (10 * n + d) % 10 == d);
}

/// Zeros, `k` of them.
pub open spec fn zeros(k: nat) -> Seq<char> {
    Seq::new(k, |i: int| '0')
}

proof fn lemma_digits_with_zeros(k: nat, n: nat)
    ensures
        digits_value(zeros(k) + dec(n)) == Some(n),
    decreases n,
{
    let s = zeros(k) + dec(n);
    lemma_dec_digits(n);
    if n < 10 {
        lemma_zeros(k);
        assert(s.drop_last() =~= zeros(k));
        assert(s.last() == digit(n));
    } else {
        lemma_digits_with_zeros(k, n / 10);
        assert(s.drop_last() =~= zeros(k) + dec(n / 10));
        assert(s.last() == digit(n % 10));
    }
}

proof fn lemma_zeros(k: nat)
    ensures
        digits_value(zeros(k)) == Some(0nat),
    decreases k,
{
    if k > 0 {
        let m = (k - 1) as nat;
        lemma_zeros(m);
        assert(zeros(k).drop_last() =~= zeros(m));
    }
}

proof fn lemma_digits_form(s: Seq<char>) -> (k: nat)
    requires
        s.len() > 0,
        digits_value(s) is Some,
    ensures
        s == zeros(k) + dec(digits_value(s)->0),
    decreases s.len(),
{
    let init = s.drop_last();
    let d = digit_value(s.last())->0;
    let n = digits_value(s)->0;
    assert(s =~= init.push(digit(d)));
    if init.len() == 0 {
        assert(s =~= zeros(0) + dec(n));
        0
    } else {
        let k = lemma_digits_form(init);
        let m = digits_value(init)->0;
        if m == 0 {
            assert(s =~= zeros(k + 1) + dec(n));
            k + 1
        } else {
            assert(n / 10 == m && n % 10 == d);
            assert(s =~= zeros(k) + dec(n));
            k
        }
    }
}

/// A text stands for a number up to the limit exactly if it is how the number is written,
/// with zeros and then a plus sign in front or without.
pub proof fn law_number(s: Seq<char>, n: nat, max: nat)
    ensures
        number(s, max) == Some(n) <==> n <= max && exists|k: nat|
            s == #[trigger] zeros(k) + dec(n) || s == seq!['+'] + (zeros(k) + dec(n)),
{
    if number(s, max) == Some(n) {
        let digits = if s[0] == '+' {
            s.skip(1)
        } else {
            s
        };
        let k = lemma_digits_form(digits);
        if s[0] == '+' {
            assert(s =~= seq!['+'] + (zeros(k) + dec(n)));
        } else {
            assert(s == zeros(k) + dec(n));
        }
    }
    if n <= max && exists|k: nat|
        s == #[trigger] zeros(k) + dec(n) || s == seq!['+'] + (zeros(k) + dec(n)) {
        let k = choose|k: nat|
            s == #[trigger] zeros(k) + dec(n) || s == seq!['+'] + (zeros(k) + dec(n));
        let digits = zeros(k) + dec(n);
        lemma_digits_with_zeros(k, n);
        lemma_dec_digits(n);
        if s == digits {
            assert('0' <= dec(n)[0] <= '9');
            assert(s[0] == if k > 0 { '0' } else { dec(n)[0] });
        } else {
            assert(s.skip(1) =~= digits);
        }
    }
}

/// White space are these characters and no others; a set with one more character has that
/// one too.
pub proof fn law_classes(c: char, d: char)
    ensures
        Class::White.has(c) <==> (c == '\t' || c == '\n' || c == '\u{b}' || c == '\u{c}' || c
            == '\r' || c == ' ' || c == '\u{85}' || c == '\u{a0}' || c == '\u{1680}' || c
            == '\u{2000}' || c == '\u{2001}' || c == '\u{2002}' || c == '\u{2003}' || c
            == '\u{2004}' || c == '\u{2005}' || c == '\u{2006}' || c == '\u{2007}' || c
            == '\u{2008}' || c == '\u{2009}' || c == '\u{200a}' || c == '\u{2028}' || c
            == '\u{2029}' || c == '\u{202f}' || c == '\u{205f}' || c == '\u{3000}'),
        Class::One(d).has(c) <==> c == d,
        Class::WhiteOr(d).has(c) <==> c == d || Class::White.has(c),
{
}

/// A text without characters of the set is one piece, and a character of the set parts the
/// pieces of what stands in front of it from those of what follows.
pub proof fn law_split(a: Seq<char>, c: char, b: Seq<char>, class: Class)
    requires
        class.has(c),
    ensures
        (forall|i: int| 0 <= i < a.len() ==> !class.has(#[trigger] a[i])) ==> split(a, class)
            == seq![a],
        split(a.push(c) + b, class) == split(a, class) + split(b, class),
{
    lemma_split_concat(a, c, b, class);
    if forall|i: int| 0 <= i < a.len() ==> !class.has(#[trigger] a[i]) {
        lemma_lead(a, class, false, a.len() as int);
    }
}

/// An empty text has no words, a text without white space is one word, and white space
/// parts the words of what stands in front of it from those of what follows.
pub proof fn law_words(a: Seq<char>, c: char, b: Seq<char>)
    requires
        Class::White.has(c),
    ensures
        words(Seq::empty()) == Seq::<Seq<char>>::empty(),
        a.len() > 0 && (forall|i: int| 0 <= i < a.len() ==> !Class::White.has(#[trigger] a[i]))
            ==> words(a) == seq![a],
        words(a.push(c) + b) == words(a) + words(b),
{
    law_words_of_joined(Seq::empty());
    lemma_split_concat(a, c, b, Class::White);
    lemma_non_empty_concat(split(a, Class::White), split(b, Class::White));
    if a.len() > 0 && (forall|i: int|
        0 <= i < a.len() ==> !Class::White.has(#[trigger] a[i])) {
        assert forall|i: int| 0 <= i < a.len() implies !is_white(#[trigger] a[i]) by {
            assert(!Class::White.has(a[i]));
        }
        lemma_one_word(a);
    }
}

/// What is trimmed off at the beginning are characters of the set, and what is left begins
/// with another character, if it is not empty.
pub proof fn law_trim_start(s: Seq<char>, class: Class)
    ensures
        exists|i: int|
            0 <= i <= s.len() && trim_start(s, class) == #[trigger] s.skip(i) && (forall|j: int|
                0 <= j < i ==> class.has(#[trigger] s[j])) && (i < s.len() ==> !class.has(s[i])),
{
    let k = lead(s, class, true) as int;
    lemma_lead_bounds(s, class, true);
    assert(trim_start(s, class) == s.skip(k));
    assert forall|j: int| 0 <= j < k implies class.has(#[trigger] s[j]) by {
        assert(class.has(s[j]) == true);
    }
}

/// What is trimmed off at the end are characters of the set, and what is left ends with
/// another character, if it is not empty.
pub proof fn law_trim_end(s: Seq<char>, class: Class)
    ensures
        exists|i: int|
            0 <= i <= s.len() && trim_end(s, class) == #[trigger] s.take(i) && (forall|j: int|
                i <= j < s.len() ==> class.has(#[trigger] s[j])) && (i > 0 ==> !class.has(
                s[i - 1],
            )),
    decreases s.len(),
{
    if s.len() > 0 && class.has(s.last()) {
        let t = s.drop_last();
        law_trim_end(t, class);
        let i = choose|i: int|
            0 <= i <= t.len() && trim_end(t, class) == #[trigger] t.take(i) && (forall|j: int|
                i <= j < t.len() ==> class.has(#[trigger] t[j])) && (i > 0 ==> !class.has(
                t[i - 1],
            ));
        assert(t.take(i) =~= s.take(i));
        assert forall|j: int| i <= j < s.len() implies class.has(#[trigger] s[j]) by {
            if j < t.len() {
                assert(class.has(t[j]));
            }
        }
    } else {
        assert(s.take(s.len() as int) =~= s);
    }
}

/// White space around a text is trimmed off, and nothing of a text that begins and ends
/// with other characters.
pub proof fn law_trim(a: Seq<char>, s: Seq<char>, b: Seq<char>)
    requires
        forall|i: int| 0 <= i < a.len() ==> Class::White.has(#[trigger] a[i]),
        forall|i: int| 0 <= i < b.len() ==> Class::White.has(#[trigger] b[i]),
        s.len() > 0 ==> !Class::White.has(s[0]) && !Class::White.has(s.last()),
    ensures
        trim(a + s + b) == s,
{
    let t = a + s + b;
    let w = Class::White;
    if s.len() > 0 {
        assert forall|i: int| 0 <= i < a.len() implies w.has(#[trigger] t[i]) == true by {
            assert(t[i] == a[i]);
        }
        assert(t[a.len() as int] == s[0]);
        lemma_lead(t, w, true, a.len() as int);
        assert(trim_start(t, w) =~= s + b);
    } else {
        assert forall|i: int| 0 <= i < t.len() implies w.has(#[trigger] t[i]) == true by {
            if i < a.len() {
                assert(t[i] == a[i]);
            } else {
                assert(t[i] == b[i - a.len()]);
            }
        }
        lemma_lead(t, w, true, t.len() as int);
        assert(trim_start(t, w) =~= s);
        assert(trim(t) == trim_end(s, w));
        assert(s + Seq::<char>::empty() =~= s);
    }
    lemma_trim_end_white(s, b);
}

proof fn lemma_trim_end_white(s: Seq<char>, b: Seq<char>)
    requires
        forall|i: int| 0 <= i < b.len() ==> Class::White.has(#[trigger] b[i]),
        s.len() > 0 ==> !Class::White.has(s.last()),
    ensures
        trim_end(s + b, Class::White) == s,
        trim_end(s, Class::White) == s,
    decreases b.len(),
{
    if b.len() == 0 {
        assert(s + b =~= s);
    } else {
        let c = b.drop_last();
        assert forall|i: int| 0 <= i < c.len() implies Class::White.has(#[trigger] c[i]) by {
            assert(c[i] == b[i]);
        }
        lemma_trim_end_white(s, c);
        assert((s + b).drop_last() =~= s + c);
        assert(Class::White.has(b[b.len() - 1]));
    }
}

/// An empty text has no lines; a line feed, or a carriage return and a line feed, ends a
/// line and begins the lines of what follows; what has no line feed is one line.
pub proof fn law_lines(a: Seq<char>, b: Seq<char>)
    requires
        !a.contains('\n'),
    ensures
        lines(Seq::empty()) == Seq::<Seq<char>>::empty(),
        a.len() > 0 ==> lines(a) == seq![a],
        a.len() == 0 || a.last() != '\r' ==> lines(a.push('\n') + b) == seq![a] + lines(b),
        lines(a.push('\r').push('\n') + b) == seq![a] + lines(b),
{
    let n = Class::One('\n');
    let e = Seq::<char>::empty();
    let none = Seq::<Seq<char>>::empty();
    lemma_lead(e, n, false, 0);
    assert(split(e, n) == seq![e]);
    assert(seq![e].drop_last() =~= none);
    assert(lines(e) =~= none);
    assert forall|i: int| 0 <= i < a.len() implies n.has(#[trigger] a[i]) == false by {
        assert(a.contains(a[i]));
    }
    lemma_lead(a, n, false, a.len() as int);
    assert(seq![a].drop_last() =~= none);
    if a.len() > 0 {
        assert(lines(a) =~= seq![a]);
    }
    lemma_first_line(a, b);
    let r = a.push('\r');
    assert forall|i: int| 0 <= i < r.len() implies n.has(#[trigger] r[i]) == false by {
        if i < a.len() {
            assert(n.has(a[i]) == false);
        }
    }
    lemma_first_line(r, b);
    assert(r.drop_last() =~= a);
}

proof fn lemma_first_line(a: Seq<char>, b: Seq<char>)
    requires
        forall|i: int| 0 <= i < a.len() ==> Class::One('\n').has(#[trigger] a[i]) == false,
    ensures
        lines(a.push('\n') + b) == seq![strip_cr(a)] + lines(b),
{
    let n = Class::One('\n');
    lemma_lead(a, n, false, a.len() as int);
    lemma_split_concat(a, '\n', b, n);
    lemma_pieces_clean(b, n);
    let rest = split(b, n);
    let all = seq![a] + rest;
    assert(split(a.push('\n') + b, n) == all);
    assert(all.last() == rest.last());
    let f = |p: Seq<char>| strip_cr(p);
    assert(all.drop_last().map_values(f) =~= seq![strip_cr(a)] + rest.drop_last().map_values(f));
    assert(lines(a.push('\n') + b) =~= seq![strip_cr(a)] + lines(b));
}

/// No parts give an empty text, one part gives itself, and more than one give the text of
/// the first ones, the separator and the text of the others.
pub proof fn law_join(a: Seq<Seq<char>>, b: Seq<Seq<char>>, p: Seq<char>, sep: Seq<char>)
    ensures
        join(Seq::empty(), sep) == Seq::<char>::empty(),
        join(seq![p], sep) == p,
        a.len() > 0 && b.len() > 0 ==> join(a + b, sep) == join(a, sep) + sep + join(b, sep),
    decreases b.len(),
{
    if a.len() > 0 && b.len() > 0 {
        let c = b.drop_last();
        assert((a + b).drop_last() =~= a + c);
        if c.len() > 0 {
            law_join(a, c, p, sep);
            assert(join(a + b, sep) =~= join(a, sep) + sep + join(b, sep));
        } else {
            assert(a + c =~= a);
        }
    }
}

} // verus!
