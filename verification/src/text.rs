//! Characters and strings: white space, decimal numbers, searching, splitting.
//!
//! Every function here reads a `str` as its sequence of characters, which is
//! also what the contracts speak of.

use vstd::prelude::*;
use vstd::slice::slice_subrange;

verus! {

// ---- characters --------------------------------------------------------------

/// The Unicode `White_Space` property.
pub open spec fn is_space(c: char) -> bool {
    let u = c as int;
    ||| 0x9 <= u <= 0xd
    ||| u == 0x20
    ||| u == 0x85
    ||| u == 0xa0
    ||| u == 0x1680
    ||| 0x2000 <= u <= 0x200a
    ||| u == 0x2028
    ||| u == 0x2029
    ||| u == 0x202f
    ||| u == 0x205f
    ||| u == 0x3000
}

/// Whether `c` is white space.
pub fn white(c: char) -> (r: bool)
    ensures
        r == is_space(c),
{
    let u: u32 = c as u32;
    (0x9 <= u && u <= 0xd) || u == 0x20 || u == 0x85 || u == 0xa0 || u == 0x1680 || (0x2000 <= u
        && u <= 0x200a) || u == 0x2028 || u == 0x2029 || u == 0x202f || u == 0x205f || u == 0x3000
}

/// An ASCII decimal digit.
pub open spec fn is_digit(c: char) -> bool {
    '0' <= c <= '9'
}

/// The value of an ASCII decimal digit.
pub open spec fn digit_value(c: char) -> nat {
    (c as int - '0' as int) as nat
}

/// The ASCII digit of a value below ten.
pub open spec fn digit_char(d: nat) -> char {
    ('0' as int + d) as char
}

fn digit_of(d: u32) -> (c: char)
    requires
        d < 10,
    ensures
        c == digit_char(d as nat),
        is_digit(c),
        digit_value(c) == d,
{
    let b: u8 = 48 + d as u8;
    b as char
}

/// What `char::is_alphanumeric` answers of a character. Beyond ASCII nothing is said of it.
pub uninterp spec fn unicode_alphanumeric(c: char) -> bool;

/// `char::is_alphanumeric`. Claimed: the answer is a function of the character
/// (the Unicode properties `Alphabetic` and `Numeric`), and on ASCII it is
/// "a letter or a digit".
#[verifier::external_body]
pub(crate) fn alphanumeric(c: char) -> (r: bool)
    ensures
        r == unicode_alphanumeric(c),
        (c as u32) < 128 ==> r == (is_digit(c) || 'a' <= c <= 'z' || 'A' <= c <= 'Z'),
{
    c.is_alphanumeric()
}

// ---- strings and their characters -----------------------------------------------

/// `String::push`: appends one character to the end of the string.
pub assume_specification [String::push](s: &mut String, c: char)
    ensures
        final(s)@ == old(s)@.push(c),
;

/// The characters of `s`.
pub fn chars_of(s: &str) -> (v: Vec<char>)
    ensures
        v@ == s@,
{
    let mut v: Vec<char> = Vec::new();
    for c in it: s.chars()
        invariant
            v@ == it.seq().take(it.index() as int),
            it.seq() == s@,
    {
        v.push(c);
    }
    assert(v@ =~= s@);
    v
}

/// The string of the given characters.
pub fn string_of(v: &[char]) -> (s: String)
    ensures
        s@ == v@,
{
    let mut s = String::new();
    let mut i: usize = 0;
    while i < v.len()
        invariant
            i <= v@.len(),
            s@ == v@.take(i as int),
        decreases v@.len() - i,
    {
        s.push(v[i]);
        i = i + 1;
    }
    assert(v@.take(v@.len() as int) =~= v@);
    s
}

/// Whether two slices hold the same characters.
pub fn same_chars(a: &[char], b: &[char]) -> (r: bool)
    ensures
        r == (a@ == b@),
{
    if a.len() != b.len() {
        return false;
    }
    let mut i: usize = 0;
    while i < a.len()
        invariant
            i <= a@.len(),
            a@.len() == b@.len(),
            forall|k: int| 0 <= k < i ==> a@[k] == b@[k],
        decreases a@.len() - i,
    {
        if a[i] != b[i] {
            return false;
        }
        i = i + 1;
    }
    assert(a@ =~= b@);
    true
}

/// Whether two strings are equal.
pub fn same_text(a: &str, b: &str) -> (r: bool)
    ensures
        r == (a@ == b@),
{
    let x = chars_of(a);
    let y = chars_of(b);
    same_chars(x.as_slice(), y.as_slice())
}

/// The texts that a sequence of strings holds.
pub open spec fn texts(v: Seq<String>) -> Seq<Seq<char>> {
    v.map_values(|s: String| s@)
}

// ---- trimming --------------------------------------------------------------------

/// `s` without its leading white space.
pub open spec fn trim_start(s: Seq<char>) -> Seq<char>
    decreases s.len(),
{
    if s.len() > 0 && is_space(s[0]) {
        trim_start(s.drop_first())
    } else {
        s
    }
}

/// `s` without its trailing white space.
pub open spec fn trim_end(s: Seq<char>) -> Seq<char>
    decreases s.len(),
{
    if s.len() > 0 && is_space(s.last()) {
        trim_end(s.drop_last())
    } else {
        s
    }
}

/// `s` without the white space at both ends.
pub open spec fn trimmed(s: Seq<char>) -> Seq<char> {
    trim_end(trim_start(s))
}

/// `s` without the white space at both ends.
pub fn trim(s: &[char]) -> (r: &[char])
    ensures
        r@ == trimmed(s@),
{
    let mut lo: usize = 0;
    assert(s@.subrange(0, s@.len() as int) =~= s@);
    while lo < s.len() && white(s[lo])
        invariant
            lo <= s@.len(),
            trim_start(s@) == trim_start(s@.subrange(lo as int, s@.len() as int)),
        decreases s@.len() - lo,
    {
        assert(s@.subrange(lo as int, s@.len() as int).drop_first() =~= s@.subrange(
            lo + 1,
            s@.len() as int,
        ));
        lo = lo + 1;
    }
    let ghost body = s@.subrange(lo as int, s@.len() as int);
    assert(trim_start(s@) == body);
    let mut hi: usize = s.len();
    while lo < hi && white(s[hi - 1])
        invariant
            lo <= hi <= s@.len(),
            trim_end(body) == trim_end(s@.subrange(lo as int, hi as int)),
        decreases hi - lo,
    {
        assert(s@.subrange(lo as int, hi as int).drop_last() =~= s@.subrange(lo as int, hi - 1));
        hi = hi - 1;
    }
    assert(lo == hi ==> s@.subrange(lo as int, hi as int).len() == 0);
    slice_subrange(s, lo, hi)
}

/// Text without white space at its ends is what trimming leaves of it.
pub proof fn lemma_trim_plain(s: Seq<char>)
    requires
        s.len() > 0 ==> !is_space(s[0]) && !is_space(s.last()),
    ensures
        trimmed(s) == s,
{
}

// ---- decimal numbers ----------------------------------------------------------------

pub open spec fn all_digits(s: Seq<char>) -> bool {
    forall|i: int| 0 <= i < s.len() ==> is_digit(#[trigger] s[i])
}

/// The number that a run of digits spells.
pub open spec fn digits_value(s: Seq<char>) -> nat
    decreases s.len(),
{
    if s.len() == 0 {
        0
    } else {
        10 * digits_value(s.drop_last()) + digit_value(s.last())
    }
}

/// `s` without a leading sign.
pub open spec fn unsigned_part(s: Seq<char>) -> Seq<char> {
    if s.len() > 0 && (s[0] == '-' || s[0] == '+') {
        s.drop_first()
    } else {
        s
    }
}

/// What an optionally signed run of digits stands for.
pub open spec fn signed_value(s: Seq<char>) -> int {
    if s.len() > 0 && s[0] == '-' {
        -(digits_value(unsigned_part(s)) as int)
    } else {
        digits_value(unsigned_part(s)) as int
    }
}

/// The decimal number in `s`: an optional sign and at least one digit, nothing
/// else, within the range of `i32`.
pub open spec fn decimal_i32(s: Seq<char>) -> Option<i32> {
    if unsigned_part(s).len() > 0 && all_digits(unsigned_part(s)) && i32::MIN <= signed_value(s)
        <= i32::MAX {
        Some(signed_value(s) as i32)
    } else {
        None
    }
}

proof fn lemma_digits_prefix(s: Seq<char>, i: int)
    requires
        0 <= i <= s.len(),
    ensures
        digits_value(s.take(i)) <= digits_value(s),
    decreases s.len() - i,
{
    if i == s.len() {
        assert(s.take(i) =~= s);
    } else {
        assert(s.take(i + 1).drop_last() =~= s.take(i));
        lemma_digits_prefix(s, i + 1);
    }
}

/// Reads a decimal number.
pub fn parse_i32(s: &[char]) -> (r: Option<i32>)
    ensures
        r == decimal_i32(s@),
{
    let n: usize = s.len();
    let neg: bool = n > 0 && s[0] == '-';
    let from: usize = if n > 0 && (s[0] == '-' || s[0] == '+') {
        1
    } else {
        0
    };
    let ghost body = unsigned_part(s@);
    assert(body =~= s@.subrange(from as int, n as int));
    if from == n {
        return None;
    }
    let mut acc: i64 = 0;
    let mut i: usize = from;
    while i < n
        invariant
            from <= i <= n,
            n == s@.len(),
            from <= 1,
            body == s@.subrange(from as int, n as int),
            body == unsigned_part(s@),
            0 <= acc <= 2147483648,
            acc == digits_value(body.take(i - from)),
            forall|k: int| 0 <= k < i - from ==> is_digit(#[trigger] body[k]),
        decreases n - i,
    {
        let c: char = s[i];
        assert(c == body[i - from]);
        if c < '0' || c > '9' {
            return None;
        }
        let d: i64 = (c as u32 - 48) as i64;
        assert(body.take(i - from + 1).drop_last() =~= body.take(i - from));
        acc = 10 * acc + d;
        if acc > 2147483648 {
            proof {
                lemma_digits_prefix(body, i - from + 1);
            }
            return None;
        }
        i = i + 1;
    }
    assert(body.take(n - from) =~= body);
    if neg {
        let v: i64 = -acc;
        Some(v as i32)
    } else if acc > 2147483647 {
        None
    } else {
        Some(acc as i32)
    }
}

/// The decimal digits of a natural number.
pub open spec fn nat_text(n: nat) -> Seq<char>
    decreases n,
{
    if n < 10 {
        seq![digit_char(n)]
    } else {
        nat_text(n / 10).push(digit_char(n % 10))
    }
}

/// The decimal text of an integer.
pub open spec fn int_text(n: int) -> Seq<char> {
    if n < 0 {
        seq!['-'] + nat_text((-n) as nat)
    } else {
        nat_text(n as nat)
    }
}

fn nat_chars(n: u32) -> (v: Vec<char>)
    ensures
        v@ == nat_text(n as nat),
    decreases n,
{
    if n < 10 {
        let mut v: Vec<char> = Vec::new();
        v.push(digit_of(n));
        assert(v@ =~= nat_text(n as nat));
        v
    } else {
        let mut v = nat_chars(n / 10);
        v.push(digit_of(n % 10));
        v
    }
}

/// The decimal text of a natural number.
pub fn nat_to_string(n: u32) -> (s: String)
    ensures
        s@ == nat_text(n as nat),
{
    let digits = nat_chars(n);
    string_of(digits.as_slice())
}

/// The decimal text of an integer.
pub fn int_to_string(n: i32) -> (s: String)
    ensures
        s@ == int_text(n as int),
{
    let mut s = String::new();
    let wide: i64 = n as i64;
    let size: u32 = if wide < 0 {
        (-wide) as u32
    } else {
        wide as u32
    };
    if wide < 0 {
        s.push('-');
    }
    let tail = nat_to_string(size);
    s.append(tail.as_str());
    assert(s@ =~= int_text(n as int));
    s
}

/// The decimal text of a natural number is made of digits, not empty, and spells
/// the number.
pub proof fn lemma_nat_text(n: nat)
    ensures
        nat_text(n).len() > 0,
        all_digits(nat_text(n)),
        digits_value(nat_text(n)) == n,
    decreases n,
{
    if n < 10 {
        let s = seq![digit_char(n)];
        assert(s.drop_last() =~= Seq::<char>::empty());
        assert(digits_value(s.drop_last()) == 0);
        assert(digits_value(s) == n);
    } else {
        lemma_nat_text(n / 10);
        let h = nat_text(n / 10);
        let s = h.push(digit_char(n % 10));
        assert(s.drop_last() =~= h);
        assert(digits_value(s) == 10 * (n / 10) + n % 10);
    }
}

/// Reading back the decimal text of an `i32` gives that `i32`.
pub proof fn law_decimal_round_trip(n: i32)
    ensures
        decimal_i32(int_text(n as int)) == Some(n),
{
    let t = int_text(n as int);
    if n < 0 {
        let body = nat_text((-n) as nat);
        lemma_nat_text((-n) as nat);
        assert(unsigned_part(t) =~= body);
    } else {
        lemma_nat_text(n as nat);
        let body = nat_text(n as nat);
        assert(is_digit(body[0]));
        assert(unsigned_part(t) =~= body);
    }
}

// ---- searching ------------------------------------------------------------------------

/// Where `pat` first occurs in `s` at or after position `from`.
pub open spec fn find_from(s: Seq<char>, pat: Seq<char>, from: int) -> Option<int>
    decreases s.len() - from,
{
    if from < 0 || from + pat.len() > s.len() {
        None
    } else if s.subrange(from, from + pat.len()) == pat {
        Some(from)
    } else if from == s.len() {
        None
    } else {
        find_from(s, pat, from + 1)
    }
}

/// Where `pat` first occurs in `s`.
pub fn find(s: &[char], pat: &[char]) -> (r: Option<usize>)
    ensures
        match r {
            Some(i) => find_from(s@, pat@, 0) == Some(i as int) && i + pat@.len() <= s@.len(),
            None => find_from(s@, pat@, 0) is None,
        },
{
    let mut i: usize = 0;
    while i < s.len() && pat.len() <= s.len() - i
        invariant
            i <= s@.len(),
            find_from(s@, pat@, 0) == find_from(s@, pat@, i as int),
        decreases s@.len() - i,
    {
        let window = slice_subrange(s, i, i + pat.len());
        if same_chars(window, pat) {
            return Some(i);
        }
        i = i + 1;
    }
    if i == s.len() && pat.len() == 0 {
        assert(s@.subrange(i as int, i as int) =~= pat@);
        Some(i)
    } else {
        None
    }
}

// ---- splitting ---------------------------------------------------------------------------

/// The pieces of `s` between the characters that `sep` picks; there is one more
/// piece than there are separators, and pieces may be empty.
pub open spec fn pieces(s: Seq<char>, sep: spec_fn(char) -> bool) -> Seq<Seq<char>>
    decreases s.len(),
{
    if s.len() == 0 {
        seq![Seq::<char>::empty()]
    } else {
        let p = pieces(s.drop_last(), sep);
        if sep(s.last()) {
            p.push(Seq::<char>::empty())
        } else {
            p.drop_last().push(p.last().push(s.last()))
        }
    }
}

/// The separator that is one given character.
pub open spec fn only(c: char) -> spec_fn(char) -> bool {
    |x: char| x == c
}

/// The pieces of `s` between the occurrences of `c`.
pub fn split(s: &[char], c: char) -> (r: Vec<Vec<char>>)
    ensures
        r@.map_values(|v: Vec<char>| v@) == pieces(s@, only(c)),
{
    let mut done: Vec<Vec<char>> = Vec::new();
    let mut cur: Vec<char> = Vec::new();
    let ghost sep = only(c);
    let mut i: usize = 0;
    assert(pieces(s@.take(0), sep) =~= done@.map_values(|v: Vec<char>| v@).push(cur@));
    while i < s.len()
        invariant
            i <= s@.len(),
            sep == only(c),
            pieces(s@.take(i as int), sep) == done@.map_values(|v: Vec<char>| v@).push(cur@),
        decreases s@.len() - i,
    {
        let ghost before = done@.map_values(|v: Vec<char>| v@);
        assert(s@.take(i + 1).drop_last() =~= s@.take(i as int));
        assert(before.push(cur@).drop_last() =~= before);
        if s[i] == c {
            done.push(cur);
            assert(done@.map_values(|v: Vec<char>| v@) =~= before.push(cur@));
            cur = Vec::new();
        } else {
            cur.push(s[i]);
        }
        i = i + 1;
    }
    let ghost before = done@.map_values(|v: Vec<char>| v@);
    done.push(cur);
    assert(s@.take(s@.len() as int) =~= s@);
    assert(done@.map_values(|v: Vec<char>| v@) =~= before.push(cur@));
    done
}

/// Splitting always yields at least one piece.
pub proof fn lemma_pieces_nonempty(s: Seq<char>, sep: spec_fn(char) -> bool)
    ensures
        pieces(s, sep).len() > 0,
    decreases s.len(),
{
    if s.len() > 0 {
        lemma_pieces_nonempty(s.drop_last(), sep);
    }
}

/// Text without a separator goes onto the last piece.
pub proof fn lemma_pieces_extend(s: Seq<char>, t: Seq<char>, sep: spec_fn(char) -> bool)
    requires
        forall|i: int| 0 <= i < t.len() ==> !sep(#[trigger] t[i]),
    ensures
        pieces(s + t, sep) == pieces(s, sep).drop_last().push(pieces(s, sep).last() + t),
    decreases t.len(),
{
    lemma_pieces_nonempty(s, sep);
    let p = pieces(s, sep);
    if t.len() == 0 {
        assert(s + t =~= s);
        assert(p.last() + t =~= p.last());
        assert(p =~= p.drop_last().push(p.last()));
    } else {
        lemma_pieces_extend(s, t.drop_last(), sep);
        assert((s + t).drop_last() =~= s + t.drop_last());
        let q = p.drop_last().push(p.last() + t.drop_last());
        assert(q.drop_last() =~= p.drop_last());
        assert((p.last() + t.drop_last()).push(t.last()) =~= p.last() + t);
    }
}

/// Trimming cuts blanks alone, and all of them: what is left starts and ends with something
/// that is not blank, and all that was cut off at either end is.
pub proof fn law_trimming_cuts_blanks_alone(s: Seq<char>) -> (r: (int, int))
    ensures
        0 <= r.0 <= r.1 <= s.len(),
        trimmed(s) == s.subrange(r.0, r.1),
        forall|i: int| 0 <= i < r.0 || r.1 <= i < s.len() ==> is_space(#[trigger] s[i]),
        r.0 < r.1 ==> !is_space(s[r.0]) && !is_space(s[r.1 - 1]),
{
    let a = lemma_trim_start(s);
    let t = trim_start(s);
    let b = lemma_trim_end(t);
    assert(trimmed(s) =~= s.subrange(a, a + b));
    assert forall|i: int| 0 <= i < a || a + b <= i < s.len() implies is_space(#[trigger] s[i]) by {
        if a + b <= i {
            assert(t[i - a] == s[i]);
        }
    }
    if b > 0 {
        assert(t[b - 1] == s[a + b - 1]);
        assert(t[0] == s[a]);
    }
    (a, a + b)
}

proof fn lemma_trim_start(s: Seq<char>) -> (a: int)
    ensures
        0 <= a <= s.len(),
        trim_start(s) == s.skip(a),
        forall|i: int| 0 <= i < a ==> is_space(#[trigger] s[i]),
        a < s.len() ==> !is_space(s[a]),
    decreases s.len(),
{
    if s.len() > 0 && is_space(s[0]) {
        let b = lemma_trim_start(s.drop_first());
        assert(s.drop_first().skip(b) =~= s.skip(b + 1));
        assert forall|i: int| 0 <= i < b + 1 implies is_space(#[trigger] s[i]) by {
            if i > 0 {
                assert(s.drop_first()[i - 1] == s[i]);
            }
        }
        b + 1
    } else {
        assert(s.skip(0) =~= s);
        0
    }
}

proof fn lemma_trim_end(s: Seq<char>) -> (b: int)
    ensures
        0 <= b <= s.len(),
        trim_end(s) == s.take(b),
        forall|i: int| b <= i < s.len() ==> is_space(#[trigger] s[i]),
        b > 0 ==> !is_space(s[b - 1]),
    decreases s.len(),
{
    if s.len() > 0 && is_space(s.last()) {
        let b = lemma_trim_end(s.drop_last());
        assert(s.drop_last().take(b) =~= s.take(b));
        assert forall|i: int| b <= i < s.len() implies is_space(#[trigger] s[i]) by {
            if i < s.len() - 1 {
                assert(s.drop_last()[i] == s[i]);
            }
        }
        b
    } else {
        assert(s.take(s.len() as int) =~= s);
        s.len() as int
    }
}

/// Text is split where a separator stands: the pieces of two texts with one between them are
/// the pieces of the first and then those of the second, and text without any is one piece.
pub proof fn law_text_is_split_at_its_separators(
    s: Seq<char>,
    c: char,
    t: Seq<char>,
    sep: spec_fn(char) -> bool,
)
    requires
        sep(c),
    ensures
        pieces(s + seq![c] + t, sep) == pieces(s, sep) + pieces(t, sep),
        (forall|i: int| 0 <= i < s.len() ==> !sep(#[trigger] s[i])) ==> pieces(s, sep) == seq![s],
    decreases t.len(),
{
    lemma_pieces_nonempty(t, sep);
    if t.len() == 0 {
        assert((s + seq![c] + t).drop_last() =~= s);
        assert(pieces(s + seq![c] + t, sep) =~= pieces(s, sep) + pieces(t, sep));
    } else {
        let u = t.drop_last();
        law_text_is_split_at_its_separators(s, c, u, sep);
        lemma_pieces_nonempty(u, sep);
        assert((s + seq![c] + t).drop_last() =~= s + seq![c] + u);
        let p = pieces(s, sep);
        let q = pieces(u, sep);
        assert((p + q).drop_last() =~= p + q.drop_last());
        assert((p + q).last() == q.last());
        assert(pieces(s + seq![c] + t, sep) =~= p + pieces(t, sep));
    }
    if forall|i: int| 0 <= i < s.len() ==> !sep(#[trigger] s[i]) {
        lemma_pieces_extend(Seq::<char>::empty(), s, sep);
        assert(Seq::<char>::empty() + s =~= s);
        assert(pieces(s, sep) =~= seq![s]);
    }
}

/// What is found is the first occurrence, and what is not found does not occur.
pub proof fn law_the_first_occurrence_is_found(s: Seq<char>, pat: Seq<char>, from: int, k: int)
    requires
        0 <= from <= k,
        k + pat.len() <= s.len(),
    ensures
        match find_from(s, pat, from) {
            Some(i) => {
                &&& from <= i
                &&& i + pat.len() <= s.len()
                &&& s.subrange(i, i + pat.len()) == pat
                &&& k < i ==> s.subrange(k, k + pat.len()) != pat
            },
            None => s.subrange(k, k + pat.len()) != pat,
        },
    decreases k - from,
{
    if s.subrange(from, from + pat.len()) != pat {
        if from < k {
            law_the_first_occurrence_is_found(s, pat, from + 1, k);
        } else {
            lemma_found_is_there(s, pat, from);
        }
    }
}

proof fn lemma_found_is_there(s: Seq<char>, pat: Seq<char>, from: int)
    ensures
        find_from(s, pat, from) matches Some(i) ==> from <= i && i + pat.len() <= s.len()
            && s.subrange(i, i + pat.len()) == pat,
    decreases s.len() - from,
{
    if !(from < 0 || from + pat.len() > s.len()) && s.subrange(from, from + pat.len()) != pat && from
        != s.len() {
        lemma_found_is_there(s, pat, from + 1);
    }
}

/// Numbers are read by their digits: each further digit makes ten times as much and its own
/// value, a minus sign makes the negative and a plus sign nothing else; and what has anything
/// but digits behind its sign, or none, is no number.
pub proof fn law_numbers_are_read_by_their_digits(t: Seq<char>, c: char)
    ensures
        is_digit(c) ==> digits_value(t.push(c)) == 10 * digits_value(t) + (c as int - 48),
        digits_value(Seq::<char>::empty()) == 0,
        t.len() > 0 && all_digits(t) && digits_value(t) <= i32::MAX ==> {
            &&& decimal_i32(t) == Some(digits_value(t) as i32)
            &&& decimal_i32(seq!['+'] + t) == Some(digits_value(t) as i32)
            &&& decimal_i32(seq!['-'] + t) == Some((-digits_value(t)) as i32)
        },
        t.len() == 0 || !all_digits(t) ==> decimal_i32(seq!['+'] + t) is None && decimal_i32(
            seq!['-'] + t,
        ) is None,
        !all_digits(t) && t[0] != '+' && t[0] != '-' ==> decimal_i32(t) is None,
{
    assert(t.push(c).drop_last() =~= t);
    assert((seq!['+'] + t).drop_first() =~= t);
    assert((seq!['-'] + t).drop_first() =~= t);
    if t.len() > 0 && all_digits(t) {
        assert(is_digit(t[0]));
    }
}

} // verus!
