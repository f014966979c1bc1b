//! Text primitives over the character view of strings: searching, splitting,
//! line breaking, trimming and decimal numbers, each with the meaning that
//! the standard library documents for the method of the same purpose.
use vstd::prelude::*;
use vstd::string::*;

verus! {

/// `String::push` appends one character.
pub assume_specification[ String::push ](s: &mut String, ch: char)
    ensures
        final(s)@ == old(s)@.push(ch),
;

/// `pat` occurs in `s` starting at position `i`.
pub open spec fn occurs_at<A>(s: Seq<A>, pat: Seq<A>, i: int) -> bool {
    0 <= i && i + pat.len() <= s.len() && s.subrange(i, i + pat.len()) == pat
}

/// Position of the first occurrence of `pat` in `s` at or after `i`.
pub open spec fn find_from<A>(s: Seq<A>, pat: Seq<A>, i: int) -> Option<int>
    decreases s.len() + 1 - i,
{
    if i < 0 || i + pat.len() > s.len() {
        None
    } else if occurs_at(s, pat, i) {
        Some(i)
    } else {
        find_from(s, pat, i + 1)
    }
}

/// Position of the first occurrence of `pat` in `s`.
pub open spec fn find<A>(s: Seq<A>, pat: Seq<A>) -> Option<int> {
    find_from(s, pat, 0)
}

/// `pat` occurs somewhere in `s`.
pub open spec fn has_substring<A>(s: Seq<A>, pat: Seq<A>) -> bool {
    find(s, pat) is Some
}

/// What `str::split_once` gives: the text before the first occurrence of
/// `pat` and the text after it.
pub open spec fn split_once_spec(s: Seq<char>, pat: Seq<char>) -> Option<(Seq<char>, Seq<char>)> {
    match find(s, pat) {
        Some(i) => Some((s.take(i), s.skip(i + pat.len()))),
        None => None,
    }
}

/// The first occurrence found from `i` on is an occurrence, and none lies between `i` and it.
pub proof fn lemma_find_from<A>(s: Seq<A>, pat: Seq<A>, i: int)
    requires
        0 <= i,
    ensures
        match find_from(s, pat, i) {
            Some(k) => i <= k && occurs_at(s, pat, k) && forall|j: int|
                i <= j < k ==> !#[trigger] occurs_at(s, pat, j),
            None => forall|j: int| i <= j ==> !#[trigger] occurs_at(s, pat, j),
        },
    decreases s.len() + 1 - i,
{
    if i + pat.len() > s.len() {
    } else if occurs_at(s, pat, i) {
    } else {
        lemma_find_from(s, pat, i + 1);
    }
}

/// An occurrence at `k` with none before it from `i` on is what `find_from` finds.
pub proof fn lemma_find_from_is<A>(s: Seq<A>, pat: Seq<A>, i: int, k: Option<int>)
    requires
        0 <= i,
        match k {
            Some(k) => i <= k && occurs_at(s, pat, k) && forall|j: int|
                i <= j < k ==> !#[trigger] occurs_at(s, pat, j),
            None => forall|j: int| i <= j ==> !#[trigger] occurs_at(s, pat, j),
        },
    ensures
        find_from(s, pat, i) == k,
{
    lemma_find_from(s, pat, i);
    match find_from(s, pat, i) {
        Some(f) => {
            match k {
                Some(kk) => {
                    if f < kk {
                        assert(!occurs_at(s, pat, f));
                    } else if kk < f {
                        assert(!occurs_at(s, pat, kk));
                    }
                },
                None => {
                    assert(!occurs_at(s, pat, f));
                },
            }
        },
        None => {
            match k {
                Some(kk) => {
                    assert(!occurs_at(s, pat, kk));
                },
                None => {},
            }
        },
    }
}

/// Searching from `start` on in `s` is searching from the beginning of what follows `start`.
pub proof fn lemma_find_skip(s: Seq<char>, pat: Seq<char>, start: int)
    requires
        0 <= start <= s.len(),
    ensures
        find_from(s, pat, start) == (match find(s.skip(start), pat) {
            Some(k) => Some(k + start),
            None => None::<int>,
        }),
{
    let t = s.skip(start);
    assert forall|j: int| 0 <= j implies occurs_at(t, pat, j) == occurs_at(s, pat, j + start) by {
        if j + pat.len() <= t.len() {
            assert(t.subrange(j, j + pat.len()) =~= s.subrange(j + start, j + start + pat.len()));
        }
    }
    lemma_find_from(t, pat, 0);
    match find(t, pat) {
        Some(k) => {
            assert forall|j: int| start <= j < k + start implies !#[trigger] occurs_at(s, pat, j) by {
                assert(!occurs_at(t, pat, j - start));
            }
            lemma_find_from_is(s, pat, start, Some(k + start));
        },
        None => {
            assert forall|j: int| start <= j implies !#[trigger] occurs_at(s, pat, j) by {
                assert(!occurs_at(t, pat, j - start));
            }
            lemma_find_from_is(s, pat, start, None);
        },
    }
}

/// The characters of `s`, in order.
pub fn chars_of(s: &str) -> (v: Vec<char>)
    ensures
        v@ == s@,
{
    let mut v: Vec<char> = Vec::new();
    for c in it: s.chars()
        invariant
            v@ == it.seq().take(it.index() as int),
    {
        v.push(c);
    }
    v
}

/// Whether `pat` occurs in `s` at position `i`.
pub fn occurs_at_exec(s: &Vec<char>, pat: &Vec<char>, i: usize) -> (r: bool)
    ensures
        r == occurs_at(s@, pat@, i as int),
{
    if i > s.len() || pat.len() > s.len() - i {
        return false;
    }
    let mut k: usize = 0;
    while k < pat.len()
        invariant
            k <= pat.len(),
            i + pat.len() <= s.len(),
            forall|j: int| 0 <= j < k ==> s@[i + j] == pat@[j],
        decreases pat.len() - k,
    {
        if s[i + k] != pat[k] {
            assert(s@.subrange(i as int, i + pat.len())[k as int] != pat@[k as int]);
            return false;
        }
        k += 1;
    }
    assert(s@.subrange(i as int, i + pat.len()) =~= pat@);
    true
}

/// Position of the first occurrence of `pat` in `s` at or after `from`.
pub fn find_chars(s: &Vec<char>, pat: &Vec<char>, from: usize) -> (r: Option<usize>)
    ensures
        match r {
            Some(k) => find_from(s@, pat@, from as int) == Some(k as int),
            None => find_from(s@, pat@, from as int) is None,
        },
{
    let mut i = from;
    while i <= s.len() && pat.len() <= s.len() - i
        invariant
            from <= i,
            forall|j: int| from <= j < i ==> !#[trigger] occurs_at(s@, pat@, j),
        decreases s.len() + 1 - i,
    {
        if occurs_at_exec(s, pat, i) {
            proof {
                lemma_find_from_is(s@, pat@, from as int, Some(i as int));
            }
            return Some(i);
        }
        if i == s.len() {
            proof {
                lemma_find_from_is(s@, pat@, from as int, None);
            }
            return None;
        }
        i += 1;
    }
    proof {
        lemma_find_from_is(s@, pat@, from as int, None);
    }
    None
}

/// Characters `a..b` of `s`, as a slice of it.
pub fn slice_chars<'a>(s: &'a str, a: usize, b: usize) -> (r: &'a str)
    requires
        a <= b <= s@.len(),
    ensures
        r@ == s@.subrange(a as int, b as int),
{
    s.substring_char(a, b)
}

/// `str::split_once`: the text before the first occurrence of `pat` and the text after it.
pub fn split_once<'a>(s: &'a str, pat: &str) -> (r: Option<(&'a str, &'a str)>)
    ensures
        match r {
            Some((a, b)) => split_once_spec(s@, pat@) == Some((a@, b@)),
            None => split_once_spec(s@, pat@) is None,
        },
{
    let cs = chars_of(s);
    let ps = chars_of(pat);
    match find_chars(&cs, &ps, 0) {
        Some(i) => {
            proof {
                lemma_find_from(cs@, ps@, 0);
                assert(occurs_at(cs@, ps@, i as int));
                assert(i + ps@.len() <= cs@.len());
            }
            let n = ps.len();
            assert(i + n <= cs.len());
            let a = slice_chars(s, 0, i);
            let b = slice_chars(s, i + n, cs.len());
            Some((a, b))
        },
        None => None,
    }
}

/// `str::contains` with a string pattern.
pub fn contains_str(s: &str, pat: &str) -> (r: bool)
    ensures
        r == has_substring(s@, pat@),
{
    let cs = chars_of(s);
    let ps = chars_of(pat);
    find_chars(&cs, &ps, 0).is_some()
}


/// ASCII lower case of one character; every other character is left as it is.
pub open spec fn lower(c: char) -> char {
    if 'A' <= c <= 'Z' {
        ((c as u32) + 32) as char
    } else {
        c
    }
}

/// ASCII lower case of a text.
pub open spec fn lower_seq(s: Seq<char>) -> Seq<char> {
    s.map_values(|c: char| lower(c))
}

/// `pat` occurs in `s` when letters are compared without regard to ASCII case.
/// For the ASCII patterns that the downloader looks for (`https`, `http`,
/// `ftp`, `home`, `content-length`, `location:`) this is the same as looking
/// in the `to_lowercase()` text: no other character lower-cases to any of
/// their characters.
pub open spec fn has_substring_ci(s: Seq<char>, pat: Seq<char>) -> bool {
    has_substring(lower_seq(s), lower_seq(pat))
}

/// `s` begins with `pat` when letters are compared without regard to ASCII case.
pub open spec fn starts_with_ci(s: Seq<char>, pat: Seq<char>) -> bool {
    lower_seq(pat).is_prefix_of(lower_seq(s))
}

/// ASCII lower case of one character.
pub fn lower_char(c: char) -> (r: char)
    ensures
        r == lower(c),
{
    if 'A' <= c && c <= 'Z' {
        ((c as u8) + 32) as char
    } else {
        c
    }
}

/// The characters of `s` in ASCII lower case.
pub fn lower_chars(s: &str) -> (v: Vec<char>)
    ensures
        v@ == lower_seq(s@),
{
    let cs = chars_of(s);
    let mut v: Vec<char> = Vec::new();
    let mut i: usize = 0;
    while i < cs.len()
        invariant
            i <= cs.len(),
            cs@ == s@,
            v@ == lower_seq(cs@.take(i as int)),
        decreases cs.len() - i,
    {
        v.push(lower_char(cs[i]));
        assert(lower_seq(cs@.take(i + 1)) =~= lower_seq(cs@.take(i as int)).push(lower(cs@[i as int])));
        i += 1;
    }
    assert(cs@.take(cs.len() as int) =~= cs@);
    v
}

/// Whether `pat` occurs in `s`, letters compared without regard to ASCII case.
pub fn contains_ci(s: &str, pat: &str) -> (r: bool)
    ensures
        r == has_substring_ci(s@, pat@),
{
    let cs = lower_chars(s);
    let ps = lower_chars(pat);
    find_chars(&cs, &ps, 0).is_some()
}

/// Whether `s` begins with `pat`, letters compared without regard to ASCII case.
pub fn starts_with_ci_exec(s: &str, pat: &str) -> (r: bool)
    ensures
        r == starts_with_ci(s@, pat@),
{
    let cs = lower_chars(s);
    let ps = lower_chars(pat);
    let ok = occurs_at_exec(&cs, &ps, 0);
    proof {
        if ok {
            assert(cs@.subrange(0, ps@.len() as int) == ps@);
        }
        if starts_with_ci(s@, pat@) {
            assert(cs@.subrange(0, ps@.len() as int) =~= ps@);
        }
    }
    ok
}

/// A line as `str::lines` gives it: the line feed is not part of it, and a
/// carriage return just before the line feed is dropped too.
pub open spec fn strip_cr(x: Seq<char>) -> Seq<char> {
    if x.len() > 0 && x.last() == '\r' {
        x.drop_last()
    } else {
        x
    }
}

/// `str::lines`: the text cut at each line feed; a line that ends the text
/// without a line feed keeps all its characters, and a final line feed opens
/// no further line.
pub open spec fn lines(s: Seq<char>) -> Seq<Seq<char>>
    decreases s.len(),
{
    if s.len() == 0 {
        seq![]
    } else {
        match find(s, seq!['\n']) {
            Some(i) => {
                proof {
                    lemma_find_from(s, seq!['\n'], 0);
                }
                seq![strip_cr(s.take(i))] + lines(s.skip(i + 1))
            },
            None => seq![s],
        }
    }
}

/// The views of a list of string slices.
pub open spec fn views<'a>(v: Seq<&'a str>) -> Seq<Seq<char>> {
    v.map_values(|x: &'a str| x@)
}

/// `str::lines`, collected.
pub fn lines_of<'a>(s: &'a str) -> (r: Vec<&'a str>)
    ensures
        views(r@) == lines(s@),
{
    let cs = chars_of(s);
    let nl: Vec<char> = vec!['\n'];
    let mut out: Vec<&'a str> = Vec::new();
    let mut start: usize = 0;
    proof {
        assert(cs@.skip(0) =~= cs@);
        assert(views(out@) + lines(cs@.skip(0)) =~= lines(cs@));
    }
    while start < cs.len()
        invariant
            start <= cs.len(),
            cs@ == s@,
            nl@ == seq!['\n'],
            views(out@) + lines(cs@.skip(start as int)) == lines(cs@),
        decreases cs.len() - start,
    {
        let ghost rest = cs@.skip(start as int);
        let ghost before = out@;
        proof {
            lemma_find_skip(cs@, nl@, start as int);
        }
        match find_chars(&cs, &nl, start) {
            Some(i) => {
                proof {
                    lemma_find_from(cs@, nl@, start as int);
                    assert(occurs_at(cs@, nl@, i as int));
                }
                let k = i - start;
                let end = if i > start && cs[i - 1] == '\r' { i - 1 } else { i };
                let line = slice_chars(s, start, end);
                assert(line@ == strip_cr(rest.take(k as int))) by {
                    if i > start && cs@[i - 1] == '\r' {
                        assert(rest.take(k as int).last() == '\r');
                        assert(rest.take(k as int).drop_last() =~= cs@.subrange(start as int, end as int));
                    } else {
                        assert(rest.take(k as int) =~= cs@.subrange(start as int, end as int));
                    }
                }
                assert(rest.skip(k + 1) =~= cs@.skip(i + 1));
                assert(lines(rest) == seq![line@] + lines(rest.skip(k + 1)));
                out.push(line);
                proof {
                    assert(views(out@) =~= views(before).push(line@));
                    assert(views(out@) + lines(cs@.skip(i + 1)) =~= views(before) + (seq![line@] + lines(rest.skip(k + 1))));
                }
                start = i + 1;
            },
            None => {
                let line = slice_chars(s, start, cs.len());
                assert(line@ =~= rest);
                assert(lines(rest) == seq![line@]);
                out.push(line);
                proof {
                    assert(views(out@) =~= views(before).push(line@));
                    assert(cs@.skip(cs.len() as int) =~= Seq::<char>::empty());
                    assert(views(out@) + lines(cs@.skip(cs.len() as int)) =~= views(before) + seq![line@]);
                }
                start = cs.len();
            },
        }
    }
    proof {
        assert(cs@.skip(start as int) =~= Seq::<char>::empty());
        assert(views(out@) + seq![] =~= views(out@));
    }
    out
}


/// Unicode `White_Space`, the whitespace that `str::trim` removes.
pub open spec fn is_white(c: char) -> bool {
    let u = c as u32;
    (0x9 <= u <= 0xD) || u == 0x20 || u == 0x85 || u == 0xA0 || u == 0x1680 || (0x2000 <= u
        <= 0x200A) || u == 0x2028 || u == 0x2029 || u == 0x202F || u == 0x205F || u == 0x3000
}

/// The text without its leading whitespace.
pub open spec fn trim_start(s: Seq<char>) -> Seq<char>
    decreases s.len(),
{
    if s.len() > 0 && is_white(s[0]) {
        trim_start(s.drop_first())
    } else {
        s
    }
}

/// The text without its trailing whitespace.
pub open spec fn trim_end(s: Seq<char>) -> Seq<char>
    decreases s.len(),
{
    if s.len() > 0 && is_white(s.last()) {
        trim_end(s.drop_last())
    } else {
        s
    }
}

/// `str::trim`: the text without leading and trailing whitespace.
pub open spec fn trim(s: Seq<char>) -> Seq<char> {
    trim_end(trim_start(s))
}

/// Whether `c` is Unicode whitespace.
pub fn is_white_exec(c: char) -> (r: bool)
    ensures
        r == is_white(c),
{
    let u = c as u32;
    (0x9 <= u && u <= 0xD) || u == 0x20 || u == 0x85 || u == 0xA0 || u == 0x1680 || (0x2000 <= u
        && u <= 0x200A) || u == 0x2028 || u == 0x2029 || u == 0x202F || u == 0x205F || u == 0x3000
}

/// `str::trim`.
pub fn trim_str<'a>(s: &'a str) -> (r: &'a str)
    ensures
        r@ == trim(s@),
{
    let cs = chars_of(s);
    let mut a: usize = 0;
    assert(cs@.skip(0) =~= cs@);
    while a < cs.len() && is_white_exec(cs[a])
        invariant
            a <= cs.len(),
            cs@ == s@,
            trim_start(cs@.skip(a as int)) == trim_start(cs@),
        decreases cs.len() - a,
    {
        assert(cs@.skip(a as int).drop_first() =~= cs@.skip(a + 1));
        a += 1;
    }
    assert(trim_start(cs@) == cs@.skip(a as int)) by {
        assert(cs@.skip(0) =~= cs@);
    }
    let mut b: usize = cs.len();
    while b > a && is_white_exec(cs[b - 1])
        invariant
            a <= b <= cs.len(),
            cs@ == s@,
            trim_end(cs@.subrange(a as int, b as int)) == trim_end(cs@.skip(a as int)),
        decreases b,
    {
        assert(cs@.subrange(a as int, b as int).drop_last() =~= cs@.subrange(a as int, b - 1));
        b -= 1;
    }
    assert(cs@.subrange(a as int, cs.len() as int) =~= cs@.skip(a as int));
    slice_chars(s, a, b)
}

/// What follows the last `sep` in `s`; all of `s` when `sep` is not in it.
pub open spec fn after_last(s: Seq<char>, sep: char) -> Seq<char>
    decreases s.len(),
{
    if s.len() == 0 {
        s
    } else if s.last() == sep {
        Seq::empty()
    } else {
        after_last(s.drop_last(), sep).push(s.last())
    }
}

/// `s.split(sep).last()`: the text after the last `sep`.
pub fn after_last_exec<'a>(s: &'a str, sep: char) -> (r: &'a str)
    ensures
        r@ == after_last(s@, sep),
{
    let cs = chars_of(s);
    let mut b: usize = cs.len();
    proof {
        assert(cs@.take(cs.len() as int) =~= cs@);
        assert(after_last(cs@, sep) + cs@.skip(cs.len() as int) =~= after_last(cs@, sep));
    }
    while b > 0 && cs[b - 1] != sep
        invariant
            b <= cs.len(),
            cs@ == s@,
            after_last(cs@, sep) == after_last(cs@.take(b as int), sep) + cs@.skip(b as int),
        decreases b,
    {
        let ghost t = cs@.take(b as int);
        assert(t.drop_last() =~= cs@.take(b - 1));
        assert(cs@.skip(b - 1) =~= seq![t.last()] + cs@.skip(b as int));
        assert(after_last(t, sep) == after_last(t.drop_last(), sep).push(t.last()));
        assert(after_last(t.drop_last(), sep).push(t.last()) + cs@.skip(b as int) =~= after_last(
            t.drop_last(),
            sep,
        ) + (seq![t.last()] + cs@.skip(b as int)));
        b -= 1;
    }
    proof {
        if b == 0 {
            assert(cs@.take(0) =~= Seq::<char>::empty());
        }
        assert(cs@.skip(b as int) =~= cs@.subrange(b as int, cs.len() as int));
    }
    slice_chars(s, b, cs.len())
}


/// The decimal digit character for `d`.
pub open spec fn digit_char(d: nat) -> char {
    (48 + d) as char
}

/// The decimal notation of `n`, without sign or leading zeros.
pub open spec fn decimal(n: nat) -> Seq<char>
    decreases n,
{
    if n < 10 {
        seq![digit_char(n)]
    } else {
        decimal(n / 10).push(digit_char(n % 10))
    }
}

/// An ASCII decimal digit.
pub open spec fn is_digit(c: char) -> bool {
    '0' <= c <= '9'
}

/// The number that a run of decimal digits denotes.
pub open spec fn digits_value(s: Seq<char>) -> nat
    decreases s.len(),
{
    if s.len() == 0 {
        0
    } else {
        digits_value(s.drop_last()) * 10 + ((s.last() as int) - 48) as nat
    }
}

/// The part of a number's text after an optional leading `+`.
pub open spec fn digit_part(s: Seq<char>) -> Seq<char> {
    if s.len() > 0 && s[0] == '+' {
        s.drop_first()
    } else {
        s
    }
}

/// One or more decimal digits and nothing else.
pub open spec fn is_digit_run(d: Seq<char>) -> bool {
    d.len() > 0 && forall|i: int| 0 <= i < d.len() ==> is_digit(#[trigger] d[i])
}

/// What `str::parse` reads as an unsigned number: an optional `+` and then one
/// or more decimal digits, nothing else.
pub open spec fn parse_decimal(s: Seq<char>) -> Option<nat> {
    if is_digit_run(digit_part(s)) {
        Some(digits_value(digit_part(s)))
    } else {
        None
    }
}

/// `s.parse::<usize>()`: the number, when it fits in a `usize`.
pub open spec fn parse_usize_spec(s: Seq<char>) -> Option<usize> {
    match parse_decimal(s) {
        Some(v) => if v <= usize::MAX {
            Some(v as usize)
        } else {
            None
        },
        None => None,
    }
}

/// Appending a digit to a run never lowers the number it denotes.
pub proof fn lemma_digits_value_prefix(s: Seq<char>, k: int)
    requires
        0 <= k <= s.len(),
        forall|i: int| 0 <= i < s.len() ==> is_digit(#[trigger] s[i]),
    ensures
        digits_value(s.take(k)) <= digits_value(s),
    decreases s.len(),
{
    if k < s.len() {
        assert(s.drop_last().take(k) =~= s.take(k));
        assert forall|i: int| 0 <= i < s.drop_last().len() implies is_digit(
            #[trigger] s.drop_last()[i],
        ) by {
            assert(s.drop_last()[i] == s[i]);
        }
        lemma_digits_value_prefix(s.drop_last(), k);
    } else {
        assert(s.take(k) =~= s);
    }
}

/// The character for digit `d`.
pub fn digit_exec(d: usize) -> (c: char)
    requires
        d < 10,
    ensures
        c == digit_char(d as nat),
{
    ((d as u8) + 48) as char
}

/// Appends the decimal notation of `n`.
pub fn push_decimal(out: &mut String, n: usize)
    ensures
        final(out)@ == old(out)@ + decimal(n as nat),
    decreases n,
{
    if n >= 10 {
        push_decimal(out, n / 10);
    }
    out.push(digit_exec(n % 10));
    proof {
        if n < 10 {
            assert(n % 10 == n);
        }
    }
}

/// `s.parse::<usize>().ok()`.
pub fn parse_usize(s: &str) -> (r: Option<usize>)
    ensures
        r == parse_usize_spec(s@),
{
    let cs = chars_of(s);
    let ghost d = digit_part(cs@);
    let start: usize = if cs.len() > 0 && cs[0] == '+' {
        1
    } else {
        0
    };
    assert(d =~= cs@.skip(start as int));
    if start >= cs.len() {
        return None;
    }
    let mut k: usize = start;
    let mut acc: usize = 0;
    while k < cs.len()
        invariant
            start <= k <= cs.len(),
            cs@ == s@,
            d == cs@.skip(start as int),
            d == digit_part(cs@),
            forall|i: int| 0 <= i < k - start ==> is_digit(#[trigger] d[i]),
            acc as nat == digits_value(d.take(k - start)),
        decreases cs.len() - k,
    {
        let c = cs[k];
        if !('0' <= c && c <= '9') {
            proof {
                assert(!is_digit(d[k - start]));
                lemma_parse_none(s@, d);
            }
            return None;
        }
        let dv = (c as u32 - 48) as usize;
        assert(d.take(k + 1 - start).drop_last() =~= d.take(k - start));
        assert(d.take(k + 1 - start).last() == c);
        match acc.checked_mul(10) {
            Some(m) => match m.checked_add(dv) {
                Some(v) => {
                    acc = v;
                },
                None => {
                    proof {
                        lemma_overflow(d, (k + 1 - start) as int);
                        lemma_parse_none(s@, d);
                    }
                    return None;
                },
            },
            None => {
                proof {
                    lemma_overflow(d, (k + 1 - start) as int);
                    lemma_parse_none(s@, d);
                }
                return None;
            },
        }
        k += 1;
    }
    assert(d.take(k - start) =~= d);
    Some(acc)
}

/// Text whose digit part is not a run of digits that fits in a `usize` is no `usize`.
proof fn lemma_parse_none(s: Seq<char>, d: Seq<char>)
    requires
        d == digit_part(s),
        !(is_digit_run(d) && digits_value(d) <= usize::MAX),
    ensures
        parse_usize_spec(s) is None,
{
}

/// A run whose first `k` digits already exceed `usize::MAX` is not a `usize`.
proof fn lemma_overflow(d: Seq<char>, k: int)
    requires
        0 < k <= d.len(),
        forall|i: int| 0 <= i < k - 1 ==> is_digit(#[trigger] d[i]),
        is_digit(d[k - 1]),
        digits_value(d.take(k)) > usize::MAX,
    ensures
        !(is_digit_run(d) && digits_value(d) <= usize::MAX),
{
    if is_digit_run(d) {
        lemma_digits_value_prefix(d, k);
    }
}


/// The text holds no line feed.
pub open spec fn no_newline(x: Seq<char>) -> bool {
    forall|j: int| 0 <= j < x.len() ==> x[j] != '\n'
}

/// A one-character pattern occurs exactly where that character stands.
pub proof fn lemma_occurs_char(s: Seq<char>, c: char, j: int)
    ensures
        occurs_at(s, seq![c], j) <==> (0 <= j < s.len() && s[j] == c),
{
    if 0 <= j < s.len() && s[j] == c {
        assert(s.subrange(j, j + 1) =~= seq![c]);
    }
    if occurs_at(s, seq![c], j) {
        assert(s.subrange(j, j + 1)[0] == c);
    }
}

/// The first line feed of a text, when it has one.
pub proof fn lemma_find_newline(s: Seq<char>)
    ensures
        match find(s, seq!['\n']) {
            Some(i) => 0 <= i < s.len() && s[i] == '\n' && no_newline(s.take(i)),
            None => no_newline(s),
        },
{
    lemma_find_from(s, seq!['\n'], 0);
    match find(s, seq!['\n']) {
        Some(i) => {
            lemma_occurs_char(s, '\n', i);
            assert forall|j: int| 0 <= j < s.take(i).len() implies s.take(i)[j] != '\n' by {
                lemma_occurs_char(s, '\n', j);
            }
        },
        None => {
            assert forall|j: int| 0 <= j < s.len() implies s[j] != '\n' by {
                lemma_occurs_char(s, '\n', j);
            }
        },
    }
}

/// No line of a text holds a line feed.
pub proof fn lemma_lines_no_newline(s: Seq<char>)
    ensures
        forall|k: int| 0 <= k < lines(s).len() ==> no_newline(#[trigger] lines(s)[k]),
    decreases s.len(),
{
    if s.len() > 0 {
        lemma_find_newline(s);
        match find(s, seq!['\n']) {
            Some(i) => {
                lemma_lines_no_newline(s.skip(i + 1));
                let head = strip_cr(s.take(i));
                assert(no_newline(head));
                assert forall|k: int| 0 <= k < lines(s).len() implies no_newline(#[trigger] lines(s)[k]) by {
                    if k > 0 {
                        assert(lines(s)[k] == lines(s.skip(i + 1))[k - 1]);
                    }
                }
            },
            None => {},
        }
    }
}

/// A line that does not end the text: it is followed by a line feed.
pub proof fn lemma_lines_one(x: Seq<char>, rest: Seq<char>)
    requires
        no_newline(x),
    ensures
        lines(x + seq!['\n'] + rest) == seq![strip_cr(x)] + lines(rest),
{
    let s = x + seq!['\n'] + rest;
    assert forall|j: int| 0 <= j < x.len() implies !#[trigger] occurs_at(s, seq!['\n'], j) by {
        lemma_occurs_char(s, '\n', j);
    }
    lemma_occurs_char(s, '\n', x.len() as int);
    lemma_find_from_is(s, seq!['\n'], 0, Some(x.len() as int));
    assert(s.take(x.len() as int) =~= x);
    assert(s.skip(x.len() as int + 1) =~= rest);
}

/// Lines of two texts, the first empty or ending with a line feed, are the
/// lines of each in turn.
pub proof fn lemma_lines_concat(a: Seq<char>, b: Seq<char>)
    requires
        a.len() == 0 || a.last() == '\n',
    ensures
        lines(a + b) == lines(a) + lines(b),
    decreases a.len(),
{
    if a.len() == 0 {
        assert(a + b =~= b);
        assert(lines(a) =~= Seq::<Seq<char>>::empty());
        assert(lines(a) + lines(b) =~= lines(b));
    } else {
        lemma_find_newline(a);
        let i = find(a, seq!['\n']).unwrap();
        let x = a.take(i);
        let r = a.skip(i + 1);
        assert(a =~= x + seq!['\n'] + r);
        assert(a + b =~= x + seq!['\n'] + (r + b));
        lemma_lines_one(x, r);
        lemma_lines_one(x, r + b);
        if r.len() > 0 {
            assert(r.last() == a.last());
        }
        lemma_lines_concat(r, b);
        assert(lines(a + b) =~= lines(a) + lines(b));
    }
}

/// A line without line feed, ended by `"\r\n"`, is one line.
pub proof fn lemma_lines_crlf(x: Seq<char>)
    requires
        no_newline(x),
    ensures
        lines(x + seq!['\r', '\n']) == seq![x],
{
    let xr = x.push('\r');
    assert(no_newline(xr));
    assert(x + seq!['\r', '\n'] =~= xr + seq!['\n'] + Seq::<char>::empty());
    lemma_lines_one(xr, Seq::empty());
    assert(strip_cr(xr) =~= x);
    assert(lines(Seq::<char>::empty()) =~= Seq::<Seq<char>>::empty());
    assert(seq![x] + Seq::<Seq<char>>::empty() =~= seq![x]);
}

/// Decimal notation holds no line feed.
pub proof fn lemma_decimal_no_newline(n: nat)
    ensures
        no_newline(decimal(n)),
        forall|j: int| 0 <= j < decimal(n).len() ==> is_digit(#[trigger] decimal(n)[j]),
    decreases n,
{
    if n >= 10 {
        lemma_decimal_no_newline(n / 10);
    }
}


/// Whether two texts are the same.
pub fn str_eq(a: &str, b: &str) -> (r: bool)
    ensures
        r == (a@ == b@),
{
    let x = chars_of(a);
    let y = chars_of(b);
    if x.len() != y.len() {
        return false;
    }
    let r = occurs_at_exec(&x, &y, 0);
    proof {
        if r {
            assert(x@.subrange(0, y@.len() as int) =~= x@);
        }
        if a@ == b@ {
            assert(x@.subrange(0, y@.len() as int) =~= y@);
        }
    }
    r
}


/// Splitting at the first occurrence: when `pat` stands right after `a` and
/// nowhere before, `split_once` gives `a` and what follows `pat`.
pub proof fn lemma_split_once_at(s: Seq<char>, a: Seq<char>, pat: Seq<char>, b: Seq<char>)
    requires
        s == a + pat + b,
        forall|j: int| 0 <= j < a.len() ==> !#[trigger] occurs_at(s, pat, j),
    ensures
        split_once_spec(s, pat) == Some((a, b)),
{
    assert(s.subrange(a.len() as int, a.len() as int + pat.len()) =~= pat);
    lemma_find_from_is(s, pat, 0, Some(a.len() as int));
    assert(s.take(a.len() as int) =~= a);
    assert(s.skip(a.len() as int + pat.len()) =~= b);
}

/// A one-character pattern splits a text at the first place it stands.
pub proof fn lemma_split_once_char(a: Seq<char>, c: char, b: Seq<char>)
    requires
        forall|j: int| 0 <= j < a.len() ==> a[j] != c,
    ensures
        split_once_spec(a + seq![c] + b, seq![c]) == Some((a, b)),
{
    let s = a + seq![c] + b;
    assert forall|j: int| 0 <= j < a.len() implies !#[trigger] occurs_at(s, seq![c], j) by {
        lemma_occurs_char(s, c, j);
    }
    lemma_split_once_at(s, a, seq![c], b);
}

/// A character that a text does not hold is not found in it.
pub proof fn lemma_find_char_none(x: Seq<char>, c: char)
    requires
        forall|j: int| 0 <= j < x.len() ==> x[j] != c,
    ensures
        find(x, seq![c]) is None,
{
    assert forall|j: int| 0 <= j implies !#[trigger] occurs_at(x, seq![c], j) by {
        lemma_occurs_char(x, c, j);
    }
    lemma_find_from_is(x, seq![c], 0, None);
}

/// A character that stands in a text is found in it.
pub proof fn lemma_find_char_some(x: Seq<char>, c: char, j: int)
    requires
        0 <= j < x.len(),
        x[j] == c,
    ensures
        find(x, seq![c]) is Some,
{
    lemma_occurs_char(x, c, j);
    lemma_find_from(x, seq![c], 0);
}

} // verus!
