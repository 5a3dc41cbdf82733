//! The parts of the agent's `/proc` readers that turn file contents into
//! values: the process name and thread count from a status file, the
//! resident and proportional set sizes from `smaps_rollup`, the CPU time
//! fields of a stat file, the uptime field, and the pids among the entries
//! of `/proc`.

use vstd::prelude::*;
use vstd::utf8::encode_utf8;
use vstd::string::StrSliceExecFns;
use crate::text::{
    chars_of, find_line_with_prefix, first_with_prefix, first_words, is_first_newline,
    lemma_first_with_prefix_skips, lemma_lines_append, lines, next_line, parse_u64, parse_u64_range,
    remove_all, remove_all_range, starts_with, strip_cr, trim, trim_range, words,
};

verus! {

/// The number of bytes in the UTF-8 encoding of `s`.
pub open spec fn utf8_len(s: Seq<char>) -> int {
    encode_utf8(s).len() as int
}

/// The number of bytes in the UTF-8 encoding of `c`.
pub open spec fn char_width(c: char) -> int {
    let x = c as u32;
    if x <= 0x7F {
        1
    } else if x <= 0x7FF {
        2
    } else if x <= 0xFFFF {
        3
    } else {
        4
    }
}

proof fn lemma_utf8_len_append(a: Seq<char>, b: Seq<char>)
    ensures
        utf8_len(a + b) == utf8_len(a) + utf8_len(b),
    decreases a.len(),
{
    if a.len() > 0 {
        lemma_utf8_len_append(a.drop_first(), b);
        assert((a + b).drop_first() =~= a.drop_first() + b);
    } else {
        assert(a + b =~= b);
    }
}

proof fn lemma_utf8_len_char(c: char)
    ensures
        utf8_len(seq![c]) == char_width(c),
{
    reveal_with_fuel(encode_utf8, 2);
    assert(seq![c].drop_first() =~= Seq::<char>::empty());
    assert(seq![c][0] == c);
}

proof fn lemma_utf8_len_push(s: Seq<char>, c: char)
    ensures
        utf8_len(s.push(c)) == utf8_len(s) + char_width(c),
        char_width(c) >= 1,
{
    assert(s.push(c) =~= s + seq![c]);
    lemma_utf8_len_append(s, seq![c]);
    lemma_utf8_len_char(c);
}

proof fn lemma_utf8_len_monotone(s: Seq<char>, j: int, k: int)
    requires
        0 <= j <= k <= s.len(),
    ensures
        utf8_len(s.take(j)) + (k - j) <= utf8_len(s.take(k)),
    decreases k - j,
{
    if j < k {
        lemma_utf8_len_monotone(s, j, k - 1);
        assert(s.take(k) =~= s.take(k - 1).push(s[k - 1]));
        lemma_utf8_len_push(s.take(k - 1), s[k - 1]);
    }
}

/// `k` characters of `s` take exactly `b` bytes: byte offset `b` of `s` is
/// a character boundary, the one before character `k`.
pub open spec fn boundary_at(s: Seq<char>, b: int, k: int) -> bool {
    0 <= k <= s.len() && utf8_len(s.take(k)) == b
}

fn char_width_exec(c: char) -> (w: usize)
    ensures
        w == char_width(c),
{
    let x = c as u32;
    if x <= 0x7F {
        1
    } else if x <= 0x7FF {
        2
    } else if x <= 0xFFFF {
        3
    } else {
        4
    }
}

/// The character index, within `s[lo..hi]`, of byte offset `b`, where `b`
/// falls on a character boundary there.
fn char_index_of_byte(s: &Vec<char>, lo: usize, hi: usize, b: usize) -> (k: usize)
    requires
        lo <= hi <= s.len(),
        b <= 1024,
        exists|k: int| boundary_at(s@.subrange(lo as int, hi as int), b as int, k),
    ensures
        boundary_at(s@.subrange(lo as int, hi as int), b as int, k as int),
{
    let ghost t = s@.subrange(lo as int, hi as int);
    let mut i: usize = 0;
    let mut acc: usize = 0;
    proof {
        assert(t.take(0) =~= Seq::<char>::empty());
    }
    while acc < b && i < hi - lo
        invariant
            lo <= hi <= s.len(),
            t == s@.subrange(lo as int, hi as int),
            i <= t.len(),
            b <= 1024,
            acc == utf8_len(t.take(i as int)),
            acc <= b + 4,
            i > 0 ==> utf8_len(t.take(i - 1)) < b,
        decreases hi - lo - i,
    {
        let w = char_width_exec(s[lo + i]);
        proof {
            assert(t.take(i + 1) =~= t.take(i as int).push(t[i as int]));
            lemma_utf8_len_push(t.take(i as int), t[i as int]);
        }
        acc = acc + w;
        i = i + 1;
    }
    proof {
        let k = choose|k: int| boundary_at(t, b as int, k);
        if acc != b {
            if k < i {
                lemma_utf8_len_monotone(t, k, i - 1);
            } else if k > i {
                lemma_utf8_len_monotone(t, i as int, k);
            }
        }
    }
    i
}

/// The first line of a status file, or `Name: Unknown` where it has none.
pub open spec fn status_first_line(content: Seq<char>) -> Seq<char> {
    let ls = lines(content);
    if ls.len() > 0 {
        ls[0]
    } else {
        "Name: Unknown"@
    }
}

/// The thread count of a status file: the number on its first line that
/// begins with `Threads:`, or one where there is no such line or the number
/// does not parse.
pub open spec fn status_threads(content: Seq<char>) -> u64 {
    match first_with_prefix(lines(content), "Threads:"@) {
        Some(l) => match parse_u64(trim(l.skip(8))) {
            Some(v) => v,
            None => 1,
        },
        None => 1,
    }
}

fn status_name(content: &str, chars: &Vec<char>) -> (name: String)
    requires
        chars@ == content@,
        exists|k: int| boundary_at(status_first_line(content@), 6, k),
    ensures
        exists|k: int|
            boundary_at(status_first_line(content@), 6, k) && name@ == status_first_line(
                content@,
            ).skip(k),
{
    if chars.len() > 0 {
        let (lo, hi, _next) = next_line(chars, 0);
        proof {
            assert(chars@.skip(0) =~= chars@);
            assert(lines(chars@)[0] == chars@.subrange(lo as int, hi as int));
        }
        let k = char_index_of_byte(chars, lo, hi, 6);
        proof {
            assert(chars@.subrange(lo as int, hi as int).skip(k as int) =~= chars@.subrange(
                lo + k,
                hi as int,
            ));
        }
        content.substring_char(lo + k, hi).to_owned()
    } else {
        let default_line: &str = "Name: Unknown";
        let default_chars = chars_of(default_line);
        proof {
            assert(lines(chars@) =~= Seq::<Seq<char>>::empty());
            assert(default_chars@.subrange(0, default_chars.len() as int) =~= default_chars@);
        }
        let k = char_index_of_byte(&default_chars, 0, default_chars.len(), 6);
        default_line.substring_char(k, default_chars.len()).to_owned()
    }
}

fn status_threads_of(chars: &Vec<char>) -> (threads: u64)
    ensures
        threads == status_threads(chars@),
{
    let prefix = chars_of("Threads:");
    proof {
        reveal_strlit("Threads:");
    }
    match find_line_with_prefix(chars, &prefix) {
        Some((lo, hi)) => {
            proof {
                assert(chars@.subrange(lo as int, hi as int).skip(8) =~= chars@.subrange(
                    lo + 8,
                    hi as int,
                ));
            }
            let (a, b) = trim_range(chars, lo + 8, hi);
            match parse_u64_range(chars, a, b) {
                Some(v) => v,
                None => 1,
            }
        },
        None => 1,
    }
}

/// The process name and thread count from the contents of a status file:
/// the name is the first line from its seventh byte on; the thread count as
/// `status_threads` says.
pub fn status_name_and_threads(content: &str) -> (r: (String, u64))
    requires
        exists|k: int| boundary_at(status_first_line(content@), 6, k),
    ensures
        exists|k: int|
            boundary_at(status_first_line(content@), 6, k) && r.0@ == status_first_line(
                content@,
            ).skip(k),
        r.1 == status_threads(content@),
{
    let chars = chars_of(content);
    (status_name(content, &chars), status_threads_of(&chars))
}

/// A size field of an `smaps_rollup` file: on the first line that begins
/// with `key` (four characters), the number after the key, with every ` kB`
/// removed and surrounding whitespace trimmed; zero where there is no such
/// line or the number does not parse.
pub open spec fn smaps_field(content: Seq<char>, key: Seq<char>) -> u64 {
    match first_with_prefix(lines(content), key) {
        Some(l) => match parse_u64(trim(remove_all(l.skip(4), " kB"@))) {
            Some(v) => v,
            None => 0,
        },
        None => 0,
    }
}

fn smaps_field_of(chars: &Vec<char>, key: &str) -> (v: u64)
    requires
        key@.len() == 4,
    ensures
        v == smaps_field(chars@, key@),
{
    let key_chars = chars_of(key);
    let unit = chars_of(" kB");
    proof {
        reveal_strlit(" kB");
    }
    match find_line_with_prefix(chars, &key_chars) {
        Some((lo, hi)) => {
            proof {
                assert(chars@.subrange(lo as int, hi as int).skip(4) =~= chars@.subrange(
                    lo + 4,
                    hi as int,
                ));
            }
            let stripped = remove_all_range(chars, lo + 4, hi, &unit);
            let (a, b) = trim_range(&stripped, 0, stripped.len());
            proof {
                assert(stripped@.subrange(0, stripped.len() as int) =~= stripped@);
            }
            match parse_u64_range(&stripped, a, b) {
                Some(v) => v,
                None => 0,
            }
        },
        None => 0,
    }
}

/// Whole lines (each ending in a line feed) none of which begins with
/// `key`.
pub open spec fn lines_without(p: Seq<char>, key: Seq<char>) -> bool {
    &&& p.len() == 0 || p.last() == '\n'
    &&& forall|i: int| 0 <= i < lines(p).len() ==> !starts_with(#[trigger] lines(p)[i], key)
}

proof fn lemma_first_line_of(l: Seq<char>, r: Seq<char>)
    requires
        forall|i: int| 0 <= i < l.len() ==> l[i] != '\n' && l[i] != '\r',
    ensures
        lines(l + (seq!['\n'] + r)).len() > 0,
        lines(l + (seq!['\n'] + r))[0] == l,
{
    let s = l + (seq!['\n'] + r);
    let k = l.len() as int;
    assert(s[k] == '\n');
    assert(is_first_newline(s, k)) by {
        assert forall|j: int| 0 <= j < k implies s[j] != '\n' by {
            assert(s[j] == l[j]);
        }
    }
    let f = choose|i: int| is_first_newline(s, i);
    assert(f == k) by {
        if f < k {
            assert(s[f] == l[f]);
        } else if k < f {
        }
    }
    assert(s.take(k) =~= l);
    assert(strip_cr(l) == l) by {
        if l.len() > 0 {
            assert(l.last() == l[l.len() - 1]);
        }
    }
}

/// Lines that do not begin with `Threads:`, put before a status text, do
/// not change its thread count, however long they are.
pub proof fn lemma_threads_ignore_other_lines(p: Seq<char>, q: Seq<char>)
    requires
        lines_without(p, "Threads:"@),
    ensures
        status_threads(p + q) == status_threads(q),
{
    lemma_lines_append(p, q);
    lemma_first_with_prefix_skips(lines(p), lines(q), "Threads:"@);
}

/// The thread count is the number on the first `Threads:` line, wherever
/// that line stands, after any number of other lines.
pub proof fn lemma_threads_line(p: Seq<char>, d: Seq<char>, r: Seq<char>, v: u64)
    requires
        lines_without(p, "Threads:"@),
        forall|i: int| 0 <= i < d.len() ==> d[i] != '\n' && d[i] != '\r',
        parse_u64(trim(d)) == Some(v),
    ensures
        status_threads(p + (("Threads:"@ + d) + (seq!['\n'] + r))) == v,
{
    reveal_strlit("Threads:");
    let key = "Threads:"@;
    let l = key + d;
    let q = l + (seq!['\n'] + r);
    assert forall|i: int| 0 <= i < l.len() implies l[i] != '\n' && l[i] != '\r' by {
        if i >= key.len() {
            assert(l[i] == d[i - key.len()]);
        }
    }
    lemma_first_line_of(l, r);
    lemma_threads_ignore_other_lines(p, q);
    assert(l.take(key.len() as int) =~= key);
    assert(starts_with(lines(q)[0], key));
    assert(l.skip(8) =~= d);
}

/// Lines that do not begin with `key`, put before an `smaps_rollup` text,
/// do not change the field that `key` names, however long they are.
pub proof fn lemma_smaps_ignore_other_lines(p: Seq<char>, q: Seq<char>, key: Seq<char>)
    requires
        lines_without(p, key),
    ensures
        smaps_field(p + q, key) == smaps_field(q, key),
{
    lemma_lines_append(p, q);
    lemma_first_with_prefix_skips(lines(p), lines(q), key);
}

/// A status file whose first line is `Name:` and a tab followed by `n`
/// names its process `n`: the only character boundary at byte 6 of that
/// line falls right after the tab.
pub proof fn lemma_status_name(n: Seq<char>, r: Seq<char>, k: int)
    requires
        forall|i: int| 0 <= i < n.len() ==> n[i] != '\n' && n[i] != '\r',
        boundary_at(status_first_line(("Name:\t"@ + n) + (seq!['\n'] + r)), 6, k),
    ensures
        status_first_line(("Name:\t"@ + n) + (seq!['\n'] + r)).skip(k) == n,
{
    reveal_strlit("Name:\t");
    let key = "Name:\t"@;
    let l = key + n;
    assert forall|i: int| 0 <= i < l.len() implies l[i] != '\n' && l[i] != '\r' by {
        if i >= key.len() {
            assert(l[i] == n[i - key.len()]);
        }
    }
    lemma_first_line_of(l, r);
    assert(status_first_line(l + (seq!['\n'] + r)) == l);
    assert(l.take(6) =~= key);
    assert(utf8_len(key) == 6) by {
        reveal_with_fuel(encode_utf8, 7);
    }
    if k < 6 {
        lemma_utf8_len_monotone(l, k, 6);
    } else if k > 6 {
        lemma_utf8_len_monotone(l, 6, k);
    }
    assert(l.skip(6) =~= n);
}

/// The `Rss:` or `Pss:` field is read from the first line that begins with
/// its key, wherever that line stands, after any number of other lines.
pub proof fn lemma_smaps_line(p: Seq<char>, key: Seq<char>, d: Seq<char>, r: Seq<char>)
    requires
        key == "Rss:"@ || key == "Pss:"@,
        lines_without(p, key),
        forall|i: int| 0 <= i < d.len() ==> d[i] != '\n' && d[i] != '\r',
    ensures
        smaps_field(p + ((key + d) + (seq!['\n'] + r)), key) == match parse_u64(
            trim(remove_all(d, " kB"@)),
        ) {
            Some(v) => v,
            None => 0,
        },
{
    reveal_strlit("Rss:");
    reveal_strlit("Pss:");
    let l = key + d;
    let q = l + (seq!['\n'] + r);
    assert(key.len() == 4);
    assert forall|i: int| 0 <= i < l.len() implies l[i] != '\n' && l[i] != '\r' by {
        if i >= key.len() {
            assert(l[i] == d[i - key.len()]);
        } else {
            assert(l[i] == key[i]);
        }
    }
    lemma_first_line_of(l, r);
    lemma_smaps_ignore_other_lines(p, q, key);
    assert(l.take(4) =~= key);
    assert(l.skip(4) =~= d);
}

/// The resident and proportional set sizes, in kB, from the contents of an
/// `smaps_rollup` file: its `Rss:` and `Pss:` fields.
pub fn smaps_rss_and_pss(content: &str) -> (r: (u64, u64))
    ensures
        r.0 == smaps_field(content@, "Rss:"@),
        r.1 == smaps_field(content@, "Pss:"@),
{
    let chars = chars_of(content);
    proof {
        reveal_strlit("Rss:");
        reveal_strlit("Pss:");
    }
    (smaps_field_of(&chars, "Rss:"), smaps_field_of(&chars, "Pss:"))
}

/// Word `i` of `content` (counting from zero), where there is one.
pub open spec fn word(content: Seq<char>, i: int) -> Option<Seq<char>> {
    if 0 <= i < words(content).len() {
        Some(words(content)[i])
    } else {
        None
    }
}

/// The text of word `i` of `content` from the bounds `v` of its first words.
fn word_text(content: &str, v: &Vec<(usize, usize)>, i: usize) -> (r: Option<String>)
    requires
        forall|j: int|
            0 <= j < v.len() ==> (#[trigger] v@[j]).0 <= v@[j].1 <= content@.len() && content@.subrange(
                v@[j].0 as int,
                v@[j].1 as int,
            ) == words(content@)[j],
        v.len() <= words(content@).len(),
        v.len() == words(content@).len() || v.len() > i,
    ensures
        match r {
            Some(w) => word(content@, i as int) == Some(w@),
            None => word(content@, i as int) is None,
        },
{
    if i < v.len() {
        let (a, b) = v[i];
        Some(content.substring_char(a, b).to_owned())
    } else {
        None
    }
}

/// The user time, system time and start time fields of a stat file: its
/// words 13, 14 and 21 (counting from zero), each still as text, each none
/// where the file has fewer words.
pub fn stat_cpu_time_fields(content: &str) -> (r: (Option<String>, Option<String>, Option<String>))
    ensures
        r.0 matches Some(w) ==> word(content@, 13) == Some(w@),
        r.0 is None ==> word(content@, 13) is None,
        r.1 matches Some(w) ==> word(content@, 14) == Some(w@),
        r.1 is None ==> word(content@, 14) is None,
        r.2 matches Some(w) ==> word(content@, 21) == Some(w@),
        r.2 is None ==> word(content@, 21) is None,
{
    let chars = chars_of(content);
    let v = first_words(&chars, 22);
    (word_text(content, &v, 13), word_text(content, &v, 14), word_text(content, &v, 21))
}

/// The first word of the uptime file, still as text; none where the file
/// has no word.
pub fn uptime_field(content: &str) -> (r: Option<String>)
    ensures
        r matches Some(w) ==> word(content@, 0) == Some(w@),
        r is None ==> word(content@, 0) is None,
{
    let chars = chars_of(content);
    let v = first_words(&chars, 1);
    word_text(content, &v, 0)
}

/// The pids among the entry names of `/proc`: the names that parse as a
/// `u64`, in order.
pub open spec fn pids_of(names: Seq<Seq<char>>) -> Seq<u64>
    decreases names.len(),
{
    if names.len() == 0 {
        Seq::empty()
    } else {
        let rest = pids_of(names.drop_last());
        match parse_u64(names.last()) {
            Some(v) => rest.push(v),
            None => rest,
        }
    }
}

/// The pids among the entry names of `/proc`, in the order of the names.
pub fn process_ids(names: &Vec<String>) -> (r: Vec<u64>)
    ensures
        r@ == pids_of(names@.map_values(|n: String| n@)),
{
    let ghost all = names@.map_values(|n: String| n@);
    let mut ids: Vec<u64> = Vec::new();
    let n = names.len();
    for i in 0..n
        invariant
            n == names.len(),
            all == names@.map_values(|n: String| n@),
            ids@ == pids_of(all.take(i as int)),
    {
        let chars = chars_of(names[i].as_str());
        proof {
            assert(all.take(i + 1).drop_last() =~= all.take(i as int));
            assert(chars@.subrange(0, chars.len() as int) =~= chars@);
        }
        if let Some(v) = parse_u64_range(&chars, 0, chars.len()) {
            ids.push(v);
        }
    }
    proof {
        assert(all.take(n as int) =~= all);
    }
    ids
}

/// Each name that parses as a `u64`, whatever its value, adds that value as
/// the next pid; any other name adds nothing.
pub proof fn lemma_pids_extend(names: Seq<Seq<char>>, n: Seq<char>)
    ensures
        parse_u64(n) matches Some(v) ==> pids_of(names.push(n)) == pids_of(names).push(v),
        parse_u64(n) is None ==> pids_of(names.push(n)) == pids_of(names),
{
    assert(names.push(n).drop_last() =~= names);
}

/// The pids are exactly the values of the names that parse as a `u64`.
pub proof fn lemma_pids_are_parsed_names(names: Seq<Seq<char>>, v: u64)
    ensures
        pids_of(names).contains(v) <==> exists|i: int|
            0 <= i < names.len() && parse_u64(#[trigger] names[i]) == Some(v),
    decreases names.len(),
{
    if names.len() > 0 {
        let init = names.drop_last();
        lemma_pids_are_parsed_names(init, v);
        let rest = pids_of(init);
        let all = pids_of(names);
        if pids_of(names).contains(v) {
            let k = choose|k: int| 0 <= k < all.len() && all[k] == v;
            if k < rest.len() {
                assert(all[k] == rest[k]);
                let i = choose|i: int| 0 <= i < init.len() && parse_u64(#[trigger] init[i]) == Some(v);
                assert(names[i] == init[i]);
            } else {
                assert(parse_u64(names[names.len() - 1]) == Some(v));
            }
        }
        if exists|i: int| 0 <= i < names.len() && parse_u64(#[trigger] names[i]) == Some(v) {
            let i = choose|i: int| 0 <= i < names.len() && parse_u64(#[trigger] names[i]) == Some(v);
            if i < names.len() - 1 {
                assert(init[i] == names[i]);
                let k = choose|k: int| 0 <= k < rest.len() && rest[k] == v;
                if parse_u64(names.last()) is Some {
                    assert(all[k] == rest[k]);
                }
                assert(all[k] == v);
            } else {
                assert(all[all.len() - 1] == v);
            }
        }
    }
}

} // verus!
