//! Text handling that the `/proc` parsers rest on, each function stated
//! over the characters of its input with the meaning `std` gives it.

use vstd::prelude::*;

verus! {

/// Whether `c` has the Unicode `White_Space` property, as
/// `char::is_whitespace` decides.
pub open spec fn is_whitespace(c: char) -> bool {
    let x = c as u32;
    ||| 0x9 <= x <= 0xD
    ||| x == 0x20
    ||| x == 0x85
    ||| x == 0xA0
    ||| x == 0x1680
    ||| 0x2000 <= x <= 0x200A
    ||| x == 0x2028
    ||| x == 0x2029
    ||| x == 0x202F
    ||| x == 0x205F
    ||| x == 0x3000
}

pub fn char_is_whitespace(c: char) -> (b: bool)
    ensures
        b == is_whitespace(c),
{
    let x = c as u32;
    (0x9 <= x && x <= 0xD) || x == 0x20 || x == 0x85 || x == 0xA0 || x == 0x1680 || (0x2000 <= x
        && x <= 0x200A) || x == 0x2028 || x == 0x2029 || x == 0x202F || x == 0x205F || x == 0x3000
}

/// The characters of `s`.
pub fn chars_of(s: &str) -> (v: Vec<char>)
    ensures
        v@ == s@,
{
    let mut v: Vec<char> = Vec::new();
    for c in it: s.chars()
        invariant
            v@ == it.seq().take(it.index() as int),
    {
        v.push(c);
    }
    v
}

/// `s` without its leading whitespace.
pub open spec fn trim_start(s: Seq<char>) -> Seq<char>
    decreases s.len(),
{
    if s.len() > 0 && is_whitespace(s[0]) {
        trim_start(s.drop_first())
    } else {
        s
    }
}

/// `s` without its trailing whitespace.
pub open spec fn trim_end(s: Seq<char>) -> Seq<char>
    decreases s.len(),
{
    if s.len() > 0 && is_whitespace(s.last()) {
        trim_end(s.drop_last())
    } else {
        s
    }
}

/// `s` without leading and trailing whitespace, as `str::trim` gives it.
pub open spec fn trim(s: Seq<char>) -> Seq<char> {
    trim_end(trim_start(s))
}

/// The bounds, within `lo..hi`, of what `str::trim` leaves of the
/// characters `s[lo..hi]`.
pub fn trim_range(s: &Vec<char>, lo: usize, hi: usize) -> (r: (usize, usize))
    requires
        lo <= hi <= s.len(),
    ensures
        lo <= r.0 <= r.1 <= hi,
        s@.subrange(r.0 as int, r.1 as int) == trim(s@.subrange(lo as int, hi as int)),
{
    let mut a = lo;
    while a < hi && char_is_whitespace(s[a])
        invariant
            lo <= a <= hi <= s.len(),
            trim_start(s@.subrange(lo as int, hi as int)) == trim_start(s@.subrange(a as int, hi as int)),
        decreases hi - a,
    {
        assert(s@.subrange(a as int, hi as int).drop_first() =~= s@.subrange(a + 1, hi as int));
        a = a + 1;
    }
    let mut b = hi;
    while b > a && char_is_whitespace(s[b - 1])
        invariant
            lo <= a <= b <= hi <= s.len(),
            trim_end(s@.subrange(a as int, hi as int)) == trim_end(s@.subrange(a as int, b as int)),
        decreases b - a,
    {
        assert(s@.subrange(a as int, b as int).drop_last() =~= s@.subrange(a as int, b - 1));
        b = b - 1;
    }
    (a, b)
}

/// Whether `c` is an ASCII decimal digit.
pub open spec fn is_digit(c: char) -> bool {
    '0' <= c <= '9'
}

/// The value of the decimal digit `c`.
pub open spec fn digit_value(c: char) -> int {
    c as int - '0' as int
}

/// The value of the decimal numeral `s`.
pub open spec fn digits_value(s: Seq<char>) -> int
    decreases s.len(),
{
    if s.len() == 0 {
        0
    } else {
        digits_value(s.drop_last()) * 10 + digit_value(s.last())
    }
}

pub open spec fn all_digits(s: Seq<char>) -> bool {
    forall|i: int| 0 <= i < s.len() ==> is_digit(#[trigger] s[i])
}

/// What `str::parse::<u64>` gives for `s`, with the error dropped: the value
/// of an optional `+` followed by at least one decimal digit, where it fits.
pub open spec fn parse_u64(s: Seq<char>) -> Option<u64> {
    let d = if s.len() > 0 && s[0] == '+' {
        s.drop_first()
    } else {
        s
    };
    if d.len() > 0 && all_digits(d) && digits_value(d) <= u64::MAX {
        Some(digits_value(d) as u64)
    } else {
        None
    }
}

proof fn lemma_digits_value_grows(s: Seq<char>, i: int)
    requires
        all_digits(s),
        0 <= i <= s.len(),
    ensures
        0 <= digits_value(s.take(i)) <= digits_value(s),
    decreases s.len() - i,
{
    if i < s.len() {
        lemma_digits_value_grows(s, i + 1);
        assert(s.take(i + 1).drop_last() =~= s.take(i));
        lemma_digits_value_nonnegative(s.take(i));
    } else {
        assert(s.take(i) =~= s);
        lemma_digits_value_nonnegative(s);
    }
}

proof fn lemma_digits_value_nonnegative(s: Seq<char>)
    requires
        all_digits(s),
    ensures
        digits_value(s) >= 0,
    decreases s.len(),
{
    if s.len() > 0 {
        lemma_digits_value_nonnegative(s.drop_last());
    }
}

/// Parses the characters `s[lo..hi]` as `str::parse::<u64>` does.
pub fn parse_u64_range(s: &Vec<char>, lo: usize, hi: usize) -> (r: Option<u64>)
    requires
        lo <= hi <= s.len(),
    ensures
        r == parse_u64(s@.subrange(lo as int, hi as int)),
{
    let ghost t = s@.subrange(lo as int, hi as int);
    let mut p = lo;
    if p < hi && s[p] == '+' {
        p = p + 1;
    }
    let ghost d = s@.subrange(p as int, hi as int);
    proof {
        if lo < hi && s@[lo as int] == '+' {
            assert(t.drop_first() =~= d);
        } else {
            assert(t =~= d);
        }
    }
    if p == hi {
        return None;
    }
    let mut v: u64 = 0;
    let mut i = p;
    while i < hi
        invariant
            lo <= p <= i <= hi <= s.len(),
            t == s@.subrange(lo as int, hi as int),
            d == s@.subrange(p as int, hi as int),
            d.len() > 0,
            parse_u64(t) == (if all_digits(d) && digits_value(d) <= u64::MAX {
                Some(digits_value(d) as u64)
            } else {
                None
            }),
            all_digits(d.take(i - p)),
            v == digits_value(d.take(i - p)),
        decreases hi - i,
    {
        let c = s[i];
        if !('0' <= c && c <= '9') {
            assert(!all_digits(d)) by {
                assert(d[i - p] == c);
            }
            return None;
        }
        let digit = (c as u32 - '0' as u32) as u128;
        let w: u128 = (v as u128) * 10 + digit;
        proof {
            assert(d.take(i - p + 1).drop_last() =~= d.take(i - p));
            assert(all_digits(d.take(i - p + 1)));
        }
        if w > u64::MAX as u128 {
            proof {
                if all_digits(d) {
                    lemma_digits_value_grows(d, i - p + 1);
                }
            }
            return None;
        }
        v = w as u64;
        i = i + 1;
    }
    proof {
        assert(d.take(i - p) =~= d);
    }
    Some(v)
}

/// `i` is the first position of a line feed in `s`.
pub open spec fn is_first_newline(s: Seq<char>, i: int) -> bool {
    &&& 0 <= i < s.len()
    &&& s[i] == '\n'
    &&& forall|j: int| 0 <= j < i ==> s[j] != '\n'
}

/// The position of the first line feed in `s`, if any.
pub open spec fn first_newline(s: Seq<char>) -> Option<int> {
    if exists|i: int| is_first_newline(s, i) {
        Some(choose|i: int| is_first_newline(s, i))
    } else {
        None
    }
}

/// `l` without one trailing carriage return.
pub open spec fn strip_cr(l: Seq<char>) -> Seq<char> {
    if l.len() > 0 && l.last() == '\r' {
        l.drop_last()
    } else {
        l
    }
}

/// The lines of `s`, as `str::lines` gives them: split at each line feed,
/// a carriage return just before a line feed dropped, and no empty line
/// after a final line feed.
pub open spec fn lines(s: Seq<char>) -> Seq<Seq<char>>
    decreases s.len(),
{
    if s.len() == 0 {
        Seq::empty()
    } else {
        match first_newline(s) {
            Some(k) => {
                proof {
                    assert(is_first_newline(s, k));
                }
                seq![strip_cr(s.take(k))] + lines(s.skip(k + 1))
            },
            None => seq![s],
        }
    }
}

proof fn lemma_first_newline(s: Seq<char>, i: int)
    requires
        is_first_newline(s, i),
    ensures
        first_newline(s) == Some(i),
{
    let k = choose|k: int| is_first_newline(s, k);
    assert(k == i) by {
        if k < i {
            assert(s[k] != '\n');
        } else if i < k {
            assert(s[i] != '\n');
        }
    }
}

/// The line that begins at position `start` of `s` (which must not be the
/// end): its bounds within `s`, and where the rest begins. The lines from
/// `start` on are that line followed by the lines from the rest.
pub fn next_line(s: &Vec<char>, start: usize) -> (r: (usize, usize, usize))
    requires
        start < s.len(),
    ensures
        start <= r.0 <= r.1 <= r.2 <= s.len(),
        r.2 > start,
        lines(s@.skip(start as int)) == seq![s@.subrange(r.0 as int, r.1 as int)] + lines(
            s@.skip(r.2 as int),
        ),
{
    let ghost u = s@.skip(start as int);
    let n = s.len();
    let mut i = start;
    while i < n && s[i] != '\n'
        invariant
            start <= i <= n == s.len(),
            u == s@.skip(start as int),
            forall|j: int| start <= j < i ==> s@[j] != '\n',
        decreases n - i,
    {
        i = i + 1;
    }
    if i == n {
        proof {
            assert(!exists|k: int| is_first_newline(u, k)) by {
                if exists|k: int| is_first_newline(u, k) {
                    let k = choose|k: int| is_first_newline(u, k);
                    assert(u[k] == s@[start + k]);
                }
            }
            assert(u =~= s@.subrange(start as int, n as int));
            assert(s@.skip(n as int) =~= Seq::<char>::empty());
            assert(lines(s@.skip(n as int)) =~= Seq::<Seq<char>>::empty());
            assert(seq![u] + Seq::<Seq<char>>::empty() =~= seq![u]);
        }
        (start, n, n)
    } else {
        let ghost k = i - start;
        proof {
            assert(is_first_newline(u, k)) by {
                assert forall|j: int| 0 <= j < k implies u[j] != '\n' by {
                    assert(u[j] == s@[start + j]);
                }
            }
            lemma_first_newline(u, k);
            assert(u.skip(k + 1) =~= s@.skip(i + 1));
            assert(u.take(k) =~= s@.subrange(start as int, i as int));
        }
        if i > start && s[i - 1] == '\r' {
            proof {
                assert(strip_cr(u.take(k)) =~= s@.subrange(start as int, i - 1));
            }
            (start, i - 1, i + 1)
        } else {
            proof {
                assert(strip_cr(u.take(k)) =~= s@.subrange(start as int, i as int));
            }
            (start, i, i + 1)
        }
    }
}

/// Whether `s` begins with `p`.
pub open spec fn starts_with(s: Seq<char>, p: Seq<char>) -> bool {
    p.len() <= s.len() && s.take(p.len() as int) == p
}

/// Whether the characters `s[lo..hi]` begin with `p`.
pub fn range_starts_with(s: &Vec<char>, lo: usize, hi: usize, p: &Vec<char>) -> (b: bool)
    requires
        lo <= hi <= s.len(),
    ensures
        b == starts_with(s@.subrange(lo as int, hi as int), p@),
{
    let ghost t = s@.subrange(lo as int, hi as int);
    if p.len() > hi - lo {
        return false;
    }
    let m = p.len();
    for j in 0..m
        invariant
            m == p.len(),
            lo + m <= hi <= s.len(),
            t == s@.subrange(lo as int, hi as int),
            forall|x: int| 0 <= x < j ==> s@[lo + x] == p@[x],
    {
        if s[lo + j] != p[j] {
            proof {
                assert(t.take(m as int)[j as int] == s@[lo + j]);
            }
            return false;
        }
    }
    proof {
        assert(t.take(m as int) =~= p@);
    }
    true
}

/// The first of `ls` that begins with `p`, if any.
pub open spec fn first_with_prefix(ls: Seq<Seq<char>>, p: Seq<char>) -> Option<Seq<char>>
    decreases ls.len(),
{
    if ls.len() == 0 {
        None
    } else if starts_with(ls[0], p) {
        Some(ls[0])
    } else {
        first_with_prefix(ls.drop_first(), p)
    }
}

/// The bounds within `s` of the first line of `s` that begins with `p`,
/// if any.
pub fn find_line_with_prefix(s: &Vec<char>, p: &Vec<char>) -> (r: Option<(usize, usize)>)
    ensures
        match r {
            Some((lo, hi)) => lo <= hi <= s.len() && starts_with(s@.subrange(lo as int, hi as int), p@)
                && first_with_prefix(lines(s@), p@) == Some(s@.subrange(lo as int, hi as int)),
            None => first_with_prefix(lines(s@), p@) is None,
        },
{
    let n = s.len();
    let mut pos: usize = 0;
    proof {
        assert(s@.skip(0) =~= s@);
    }
    while pos < n
        invariant
            pos <= n == s.len(),
            first_with_prefix(lines(s@), p@) == first_with_prefix(lines(s@.skip(pos as int)), p@),
        decreases n - pos,
    {
        let (lo, hi, next) = next_line(s, pos);
        let ghost rest = lines(s@.skip(next as int));
        let ghost here = seq![s@.subrange(lo as int, hi as int)] + rest;
        proof {
            assert(here[0] == s@.subrange(lo as int, hi as int));
            assert(here.drop_first() =~= rest);
        }
        if range_starts_with(s, lo, hi, p) {
            return Some((lo, hi));
        }
        pos = next;
    }
    proof {
        assert(s@.skip(pos as int) =~= Seq::<char>::empty());
    }
    None
}

/// `i` is the first position of a whitespace character in `s`.
pub open spec fn is_first_whitespace(s: Seq<char>, i: int) -> bool {
    &&& 0 <= i < s.len()
    &&& is_whitespace(s[i])
    &&& forall|j: int| 0 <= j < i ==> !is_whitespace(s[j])
}

/// Where the word at the start of `s` ends: the first whitespace, or the end.
pub open spec fn word_end(s: Seq<char>) -> int {
    if exists|i: int| is_first_whitespace(s, i) {
        choose|i: int| is_first_whitespace(s, i)
    } else {
        s.len() as int
    }
}

/// The words of `s`, as `str::split_whitespace` gives them: the maximal
/// runs of non-whitespace characters, in order.
pub open spec fn words(s: Seq<char>) -> Seq<Seq<char>>
    decreases s.len(),
{
    if s.len() == 0 {
        Seq::empty()
    } else if is_whitespace(s[0]) {
        words(s.drop_first())
    } else {
        let k = word_end(s);
        proof {
            if exists|i: int| is_first_whitespace(s, i) {
                assert(is_first_whitespace(s, k));
            }
        }
        seq![s.take(k)] + words(s.skip(k))
    }
}

proof fn lemma_word_end(s: Seq<char>, i: int)
    requires
        0 <= i <= s.len(),
        i < s.len() ==> is_whitespace(s[i]),
        forall|j: int| 0 <= j < i ==> !is_whitespace(s[j]),
    ensures
        word_end(s) == i,
{
    if i < s.len() {
        let k = choose|k: int| is_first_whitespace(s, k);
        assert(is_first_whitespace(s, i));
        assert(k == i) by {
            if k < i {
                assert(!is_whitespace(s[k]));
            } else if i < k {
                assert(!is_whitespace(s[i]));
            }
        }
    } else {
        assert(!exists|k: int| is_first_whitespace(s, k)) by {
            if exists|k: int| is_first_whitespace(s, k) {
                let k = choose|k: int| is_first_whitespace(s, k);
                assert(!is_whitespace(s[k]));
            }
        }
    }
}

/// The next word of `s` from position `start` on, if any: its bounds
/// within `s`. The words from `start` on are that word followed by the
/// words from its end on.
pub fn next_word(s: &Vec<char>, start: usize) -> (r: Option<(usize, usize)>)
    requires
        start <= s.len(),
    ensures
        match r {
            Some((lo, hi)) => start <= lo < hi <= s.len() && words(s@.skip(start as int))
                == seq![s@.subrange(lo as int, hi as int)] + words(s@.skip(hi as int)),
            None => words(s@.skip(start as int)) == Seq::<Seq<char>>::empty(),
        },
{
    let n = s.len();
    let mut a = start;
    while a < n && char_is_whitespace(s[a])
        invariant
            start <= a <= n == s.len(),
            words(s@.skip(start as int)) == words(s@.skip(a as int)),
        decreases n - a,
    {
        assert(s@.skip(a as int).drop_first() =~= s@.skip(a + 1));
        a = a + 1;
    }
    if a == n {
        assert(s@.skip(a as int) =~= Seq::<char>::empty());
        return None;
    }
    let mut b = a + 1;
    while b < n && !char_is_whitespace(s[b])
        invariant
            a < b <= n == s.len(),
            forall|j: int| a <= j < b ==> !is_whitespace(s@[j]),
        decreases n - b,
    {
        b = b + 1;
    }
    proof {
        let u = s@.skip(a as int);
        lemma_word_end(u, b - a);
        assert(u.take(b - a) =~= s@.subrange(a as int, b as int));
        assert(u.skip(b - a) =~= s@.skip(b as int));
    }
    Some((a, b))
}

/// The bounds within `s` of the first `n` words of `s`, as
/// `str::split_whitespace` gives them; all of them where there are fewer.
pub fn first_words(s: &Vec<char>, n: usize) -> (v: Vec<(usize, usize)>)
    ensures
        v.len() == if words(s@).len() < n { words(s@).len() } else { n as nat },
        forall|i: int|
            0 <= i < v.len() ==> (#[trigger] v@[i]).0 <= v@[i].1 <= s.len() && s@.subrange(
                v@[i].0 as int,
                v@[i].1 as int,
            ) == words(s@)[i],
{
    let mut v: Vec<(usize, usize)> = Vec::new();
    let mut pos: usize = 0;
    proof {
        assert(s@.skip(0) =~= s@);
    }
    while v.len() < n
        invariant
            pos <= s.len(),
            v.len() <= n,
            words(s@) == v@.map_values(|x: (usize, usize)| s@.subrange(x.0 as int, x.1 as int))
                + words(s@.skip(pos as int)),
            forall|i: int| 0 <= i < v.len() ==> (#[trigger] v@[i]).0 <= v@[i].1 <= s.len(),
        ensures
            v.len() <= n,
            words(s@) == v@.map_values(|x: (usize, usize)| s@.subrange(x.0 as int, x.1 as int))
                + words(s@.skip(pos as int)),
            forall|i: int| 0 <= i < v.len() ==> (#[trigger] v@[i]).0 <= v@[i].1 <= s.len(),
            v.len() == n || words(s@) == v@.map_values(
                |x: (usize, usize)| s@.subrange(x.0 as int, x.1 as int),
            ),
        decreases n - v.len(),
    {
        let ghost before = v@.map_values(|x: (usize, usize)| s@.subrange(x.0 as int, x.1 as int));
        match next_word(s, pos) {
            Some((lo, hi)) => {
                v.push((lo, hi));
                pos = hi;
                proof {
                    let after = v@.map_values(|x: (usize, usize)| s@.subrange(x.0 as int, x.1 as int));
                    assert(after =~= before.push(s@.subrange(lo as int, hi as int)));
                    assert(before + (seq![s@.subrange(lo as int, hi as int)] + words(s@.skip(hi as int)))
                        =~= after + words(s@.skip(hi as int)));
                }
            },
            None => {
                proof {
                    assert(words(s@) =~= before);
                }
                break;
            },
        }
    }
    proof {
        let ws = v@.map_values(|x: (usize, usize)| s@.subrange(x.0 as int, x.1 as int));
        assert(words(s@).len() >= v.len());
        assert forall|i: int| 0 <= i < v.len() implies s@.subrange(
            (#[trigger] v@[i]).0 as int,
            v@[i].1 as int,
        ) == words(s@)[i] by {
            assert(ws[i] == s@.subrange(v@[i].0 as int, v@[i].1 as int));
        }
    }
    v
}

/// `s` with every occurrence of `pat` removed, scanning left to right, as
/// `str::replace(pat, "")` gives it.
pub open spec fn remove_all(s: Seq<char>, pat: Seq<char>) -> Seq<char>
    recommends
        pat.len() > 0,
    decreases s.len(),
{
    if s.len() == 0 {
        s
    } else if pat.len() > 0 && starts_with(s, pat) {
        remove_all(s.skip(pat.len() as int), pat)
    } else {
        seq![s[0]] + remove_all(s.drop_first(), pat)
    }
}

/// The characters `s[lo..hi]` with every occurrence of `pat` removed.
pub fn remove_all_range(s: &Vec<char>, lo: usize, hi: usize, pat: &Vec<char>) -> (r: Vec<char>)
    requires
        lo <= hi <= s.len(),
        pat.len() > 0,
    ensures
        r@ == remove_all(s@.subrange(lo as int, hi as int), pat@),
{
    let mut out: Vec<char> = Vec::new();
    let mut i = lo;
    while i < hi
        invariant
            lo <= i <= hi <= s.len(),
            pat.len() > 0,
            remove_all(s@.subrange(lo as int, hi as int), pat@) == out@ + remove_all(
                s@.subrange(i as int, hi as int),
                pat@,
            ),
        decreases hi - i,
    {
        let ghost u = s@.subrange(i as int, hi as int);
        if range_starts_with(s, i, hi, pat) {
            proof {
                assert(u.skip(pat.len() as int) =~= s@.subrange(i + pat.len(), hi as int));
            }
            i = i + pat.len();
        } else {
            let ghost old_out = out@;
            out.push(s[i]);
            proof {
                assert(u.drop_first() =~= s@.subrange(i + 1, hi as int));
                assert(old_out + (seq![u[0]] + remove_all(u.drop_first(), pat@)) =~= out@ + remove_all(
                    u.drop_first(),
                    pat@,
                ));
            }
            i = i + 1;
        }
    }
    proof {
        assert(s@.subrange(i as int, hi as int) =~= Seq::<char>::empty());
        assert(out@ + Seq::<char>::empty() =~= out@);
    }
    out
}

proof fn lemma_first_newline_exists(s: Seq<char>, j: int)
    requires
        0 <= j < s.len(),
        s[j] == '\n',
    ensures
        exists|i: int| is_first_newline(s, i),
    decreases j,
{
    if exists|k: int| 0 <= k < j && s[k] == '\n' {
        let k = choose|k: int| 0 <= k < j && s[k] == '\n';
        lemma_first_newline_exists(s, k);
    } else {
        assert(is_first_newline(s, j));
    }
}

/// Text made of whole lines, each ending in a line feed, splits into its
/// own lines followed by the lines of whatever comes after it.
pub proof fn lemma_lines_append(p: Seq<char>, q: Seq<char>)
    requires
        p.len() == 0 || p.last() == '\n',
    ensures
        lines(p + q) == lines(p) + lines(q),
    decreases p.len(),
{
    if p.len() == 0 {
        assert(p + q =~= q);
        assert(lines(p) =~= Seq::<Seq<char>>::empty());
        assert(lines(p) + lines(q) =~= lines(q));
    } else {
        lemma_first_newline_exists(p, p.len() - 1);
        let k = choose|i: int| is_first_newline(p, i);
        lemma_first_newline(p, k);
        let pq = p + q;
        assert(is_first_newline(pq, k)) by {
            assert forall|j: int| 0 <= j < k implies pq[j] != '\n' by {
                assert(pq[j] == p[j]);
            }
        }
        lemma_first_newline(pq, k);
        assert(pq.take(k) =~= p.take(k));
        let p2 = p.skip(k + 1);
        assert(pq.skip(k + 1) =~= p2 + q);
        assert(p2.len() == 0 || p2.last() == '\n') by {
            if p2.len() > 0 {
                assert(p2.last() == p.last());
            }
        }
        lemma_lines_append(p2, q);
        assert(lines(pq) =~= lines(p) + lines(q));
    }
}

/// Lines that do not begin with `pre`, put before other lines, do not
/// change which line is the first to begin with `pre`.
pub proof fn lemma_first_with_prefix_skips(ls: Seq<Seq<char>>, rest: Seq<Seq<char>>, pre: Seq<char>)
    requires
        forall|i: int| 0 <= i < ls.len() ==> !starts_with(#[trigger] ls[i], pre),
    ensures
        first_with_prefix(ls + rest, pre) == first_with_prefix(rest, pre),
    decreases ls.len(),
{
    if ls.len() == 0 {
        assert(ls + rest =~= rest);
    } else {
        assert(!starts_with(ls[0], pre));
        assert((ls + rest)[0] == ls[0]);
        assert((ls + rest).drop_first() =~= ls.drop_first() + rest);
        assert forall|i: int| 0 <= i < ls.drop_first().len() implies !starts_with(
            #[trigger] ls.drop_first()[i],
            pre,
        ) by {
            assert(ls.drop_first()[i] == ls[i + 1]);
        }
        lemma_first_with_prefix_skips(ls.drop_first(), rest, pre);
    }
}

/// A single decimal digit parses as its value.
pub proof fn lemma_parse_digit(c: char)
    requires
        is_digit(c),
    ensures
        parse_u64(seq![c]) == Some(digit_value(c) as u64),
{
    let s = seq![c];
    assert(s[0] == c);
    assert(s.last() == c);
    assert(c != '+');
    assert(s.drop_last() =~= Seq::<char>::empty());
    assert(digits_value(s.drop_last()) == 0);
    assert(digits_value(s) == digit_value(c));
    assert(all_digits(s));
}

/// Writing one more digit after a number multiplies its value by ten and
/// adds the digit, as long as the result fits in a `u64`; a leading `+`
/// changes nothing.
pub proof fn lemma_parse_append_digit(s: Seq<char>, c: char, v: u64)
    requires
        parse_u64(s) == Some(v),
        is_digit(c),
        v * 10 + digit_value(c) <= u64::MAX,
    ensures
        parse_u64(s.push(c)) == Some((v * 10 + digit_value(c)) as u64),
{
    let t = s.push(c);
    let d = if s.len() > 0 && s[0] == '+' { s.drop_first() } else { s };
    let e = if t.len() > 0 && t[0] == '+' { t.drop_first() } else { t };
    assert(t[0] == s[0]);
    assert(e =~= d.push(c));
    assert(e.drop_last() =~= d);
    assert(e.last() == c);
    assert(digits_value(e) == digits_value(d) * 10 + digit_value(c));
    lemma_digits_value_nonnegative(d);
    assert(v == digits_value(d));
    assert(all_digits(e)) by {
        assert forall|i: int| 0 <= i < e.len() implies is_digit(#[trigger] e[i]) by {
            if i < d.len() {
                assert(e[i] == d[i]);
            }
        }
    }
}

/// A leading `+` before at least one character that is not itself a `+`
/// does not change what a number parses as.
pub proof fn lemma_parse_plus(s: Seq<char>)
    requires
        s.len() > 0,
        s[0] != '+',
    ensures
        parse_u64(seq!['+'] + s) == parse_u64(s),
{
    assert((seq!['+'] + s).drop_first() =~= s);
}

/// A character that is not a digit, after the optional leading `+`, makes
/// the text fail to parse.
pub proof fn lemma_parse_rejects_non_digit(s: Seq<char>, i: int)
    requires
        0 <= i < s.len(),
        !is_digit(s[i]),
        i == 0 ==> s[0] != '+',
    ensures
        parse_u64(s) is None,
{
    if s[0] == '+' {
        assert(s.drop_first()[i - 1] == s[i]);
    }
}

} // verus!
