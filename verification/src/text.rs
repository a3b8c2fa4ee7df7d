//! Character classes, words, numbers and lines: the lexical layer under the
//! script compiler.  Everything here is stated over `Seq<char>`; the
//! executable functions work on a line's characters held in a `Vec<char>`.

use vstd::prelude::*;

verus! {

/// Whether `c` separates the words of a script line: the characters that
/// Unicode lists as white space.
pub open spec fn is_space(c: char) -> bool {
    let n = c as u32;
    ||| 0x09 <= n <= 0x0D
    ||| n == 0x20
    ||| n == 0x85
    ||| n == 0xA0
    ||| n == 0x1680
    ||| 0x2000 <= n <= 0x200A
    ||| n == 0x2028
    ||| n == 0x2029
    ||| n == 0x202F
    ||| n == 0x205F
    ||| n == 0x3000
}

/// Decides [`is_space`].
pub fn is_space_char(c: char) -> (r: bool)
    ensures
        r == is_space(c),
{
    let n: u32 = c as u32;
    (0x09 <= n && n <= 0x0D) || n == 0x20 || n == 0x85 || n == 0xA0 || n == 0x1680 || (0x2000 <= n
        && n <= 0x200A) || n == 0x2028 || n == 0x2029 || n == 0x202F || n == 0x205F || n == 0x3000
}

/// The characters of `s`, in order.
pub fn chars_of(s: &str) -> (v: Vec<char>)
    ensures
        v@ == s@,
{
    broadcast use vstd::string::group_string_axioms;

    let mut v: Vec<char> = Vec::new();
    for c in it: s.chars()
        invariant
            it.seq() == s@,
            v@ == it.seq().take(it.index() as int),
    {
        v.push(c);
    }
    v
}

/// How many characters stand from index `from` on before the next white
/// space or the end of `s`.
pub open spec fn word_len(s: Seq<char>, from: int) -> nat
    decreases s.len() - from,
{
    if from < 0 || from >= s.len() || is_space(s[from]) {
        0
    } else {
        1 + word_len(s, from + 1)
    }
}

/// A word never runs past the end of the line, and a character that is not
/// white space begins a word of at least itself.
pub proof fn lemma_word_len(s: Seq<char>, from: int)
    requires
        0 <= from <= s.len(),
    ensures
        from + word_len(s, from) <= s.len(),
        from < s.len() && !is_space(s[from]) ==> word_len(s, from) >= 1,
        from + word_len(s, from) < s.len() ==> is_space(s[from + word_len(s, from)]),
        forall|k: int| from <= k < from + word_len(s, from) ==> !is_space(#[trigger] s[k]),
    decreases s.len() - from,
{
    if from < s.len() && !is_space(s[from]) {
        lemma_word_len(s, from + 1);
    }
}

/// The words of `s` that begin at or after `from`, each as the pair of its
/// first index and the index just behind its last character.  A word is a
/// longest run of characters that are not white space.
pub open spec fn spans_from(s: Seq<char>, from: int) -> Seq<(int, int)>
    decreases s.len() - from,
{
    if from < 0 || from >= s.len() {
        Seq::empty()
    } else if is_space(s[from]) {
        spans_from(s, from + 1)
    } else {
        proof {
            lemma_word_len(s, from);
        }
        seq![(from, from + word_len(s, from))] + spans_from(s, from + word_len(s, from))
    }
}

/// The words of a whole line as index pairs.
pub open spec fn spans(s: Seq<char>) -> Seq<(int, int)> {
    spans_from(s, 0)
}

/// The words of a line.
pub open spec fn words(s: Seq<char>) -> Seq<Seq<char>> {
    Seq::new(spans(s).len(), |k: int| s.subrange(spans(s)[k].0, spans(s)[k].1))
}

/// Index pairs held in machine integers, read as mathematical ones.
pub open spec fn as_spans(v: Seq<(usize, usize)>) -> Seq<(int, int)> {
    Seq::new(v.len(), |k: int| (v[k].0 as int, v[k].1 as int))
}

/// Splits a line into its words.
pub fn find_words(chars: &Vec<char>) -> (found: Vec<(usize, usize)>)
    ensures
        as_spans(found@) == spans(chars@),
        forall|k: int| #![trigger found@[k]] 0 <= k < found.len() ==> found@[k].0 < found@[k].1 <= chars.len(),
        forall|k: int| #![trigger found@[k]] 0 <= k < found.len() - 1 ==> found@[k].1 < found@[k + 1].0,
        forall|k: int| #![trigger found@[k]] 0 <= k < found.len() && found@[k].1 < chars.len() ==> is_space(chars@[found@[k].1 as int]),
{
    let n = chars.len();
    let mut found: Vec<(usize, usize)> = Vec::new();
    let mut i: usize = 0;
    while i < n
        invariant
            n == chars.len(),
            i <= n,
            spans(chars@) == as_spans(found@) + spans_from(chars@, i as int),
            forall|k: int| #![trigger found@[k]] 0 <= k < found.len() ==> found@[k].0 < found@[k].1 <= i,
            forall|k: int| #![trigger found@[k]] 0 <= k < found.len() - 1 ==> found@[k].1 < found@[k + 1].0,
            forall|k: int| #![trigger found@[k]] 0 <= k < found.len() && found@[k].1 < n ==> is_space(chars@[found@[k].1 as int]),
            found.len() > 0 && i < n ==> found@[found.len() - 1].1 < i || is_space(chars@[i as int]),
        decreases n - i,
    {
        if is_space_char(chars[i]) {
            i += 1;
        } else {
            let mut j: usize = i + 1;
            while j < n && !is_space_char(chars[j])
                invariant
                    n == chars.len(),
                    i < j <= n,
                    word_len(chars@, i as int) == (j - i) + word_len(chars@, j as int),
                decreases n - j,
            {
                j += 1;
            }
            proof {
                assert(as_spans(found@.push((i, j))) =~= as_spans(found@) + seq![(i as int, j as int)]);
            }
            found.push((i, j));
            i = j;
        }
    }
    proof {
        assert(as_spans(found@) + Seq::<(int, int)>::empty() =~= as_spans(found@));
    }
    found
}

/// Whether the characters of `chars` from `from` up to `to` spell `word`.
pub fn spells(chars: &Vec<char>, from: usize, to: usize, word: &str) -> (r: bool)
    requires
        from <= to <= chars.len(),
    ensures
        r == (chars@.subrange(from as int, to as int) == word@),
{
    let n = word.unicode_len();
    if to - from != n {
        return false;
    }
    let mut k: usize = 0;
    while k < n
        invariant
            from + n == to <= chars.len(),
            n == word@.len(),
            k <= n,
            forall|j: int| 0 <= j < k ==> chars@[from + j] == word@[j],
        decreases n - k,
    {
        if chars[from + k] != word.get_char(k) {
            assert(chars@.subrange(from as int, to as int)[k as int] != word@[k as int]);
            return false;
        }
        k += 1;
    }
    assert(chars@.subrange(from as int, to as int) =~= word@);
    true
}

/// The value of `c` as a digit in base `radix`, for bases up to sixteen:
/// `0` to `9`, then the letters from `a` on in either case.
pub open spec fn digit_of(c: char, radix: nat) -> Option<nat> {
    let n = c as u32 as nat;
    let v: nat = if '0' <= c <= '9' {
        (n - 0x30) as nat
    } else if 'a' <= c <= 'f' {
        (n - 0x61 + 10) as nat
    } else if 'A' <= c <= 'F' {
        (n - 0x41 + 10) as nat
    } else {
        radix
    };
    if v < radix {
        Some(v)
    } else {
        None
    }
}

/// Decides [`digit_of`].
pub fn digit(c: char, radix: u32) -> (r: Option<u32>)
    requires
        radix <= 16,
    ensures
        r is Some == digit_of(c, radix as nat) is Some,
        r is Some ==> r->0 == digit_of(c, radix as nat)->0 && r->0 < radix,
{
    let n: u32 = c as u32;
    let v: u32 = if 0x30 <= n && n <= 0x39 {
        n - 0x30
    } else if 0x61 <= n && n <= 0x66 {
        n - 0x61 + 10
    } else if 0x41 <= n && n <= 0x46 {
        n - 0x41 + 10
    } else {
        radix
    };
    if v < radix {
        Some(v)
    } else {
        None
    }
}

/// Whether every character of `s` is a digit in base `radix`.
pub open spec fn all_digits(s: Seq<char>, radix: nat) -> bool {
    forall|i: int| 0 <= i < s.len() ==> (#[trigger] digit_of(s[i], radix)) is Some
}

/// The number that the digits `s` write in base `radix`, most significant
/// digit first.
pub open spec fn digits_value(s: Seq<char>, radix: nat) -> nat
    decreases s.len(),
{
    if s.len() == 0 {
        0
    } else {
        digits_value(s.drop_last(), radix) * radix + match digit_of(s.last(), radix) {
            Some(d) => d,
            None => 0,
        }
    }
}

/// The number that `s` writes in base `radix`: an optional `+`, then one
/// digit or more.  `None` where `s` is not of that form.
pub open spec fn number(s: Seq<char>, radix: nat) -> Option<nat> {
    let body = if s.len() > 0 && s[0] == '+' {
        s.skip(1)
    } else {
        s
    };
    if body.len() > 0 && all_digits(body, radix) {
        Some(digits_value(body, radix))
    } else {
        None
    }
}

/// [`number`], kept only where it is at most `max`.
pub open spec fn number_up_to(s: Seq<char>, radix: nat, max: nat) -> Option<nat> {
    match number(s, radix) {
        Some(v) => if v <= max {
            Some(v)
        } else {
            None
        },
        None => None,
    }
}

/// Reading more digits never makes the number smaller.
pub proof fn lemma_digits_value_grows(s: Seq<char>, k: int, radix: nat)
    requires
        0 <= k <= s.len(),
        radix >= 1,
    ensures
        digits_value(s.take(k), radix) <= digits_value(s, radix),
    decreases s.len() - k,
{
    if k == s.len() {
        assert(s.take(k) =~= s);
    } else {
        let front = s.drop_last();
        assert(front.take(k) =~= s.take(k));
        lemma_digits_value_grows(front, k, radix);
        assert(digits_value(front, radix) * radix >= digits_value(front, radix)) by (nonlinear_arith)
            requires
                radix >= 1,
        ;
    }
}

/// Reads the number written by the characters from `from` up to `to`.
pub fn parse_number(chars: &Vec<char>, from: usize, to: usize, radix: u32, max: u64) -> (r: Option<u64>)
    requires
        from <= to <= chars.len(),
        1 <= radix <= 16,
    ensures
        r is Some == number_up_to(chars@.subrange(from as int, to as int), radix as nat, max as nat) is Some,
        r is Some ==> r->0 == number_up_to(chars@.subrange(from as int, to as int), radix as nat, max as nat)->0,
{
    let ghost s = chars@.subrange(from as int, to as int);
    let start: usize = if from < to && chars[from] == '+' {
        from + 1
    } else {
        from
    };
    let ghost body = chars@.subrange(start as int, to as int);
    proof {
        if from < to && s[0] == '+' {
            assert(s.skip(1) =~= body);
        } else {
            assert(s =~= body);
        }
    }
    if start == to {
        return None;
    }
    let mut acc: u64 = 0;
    let mut i: usize = start;
    while i < to
        invariant
            from <= start <= i <= to <= chars.len(),
            1 <= radix <= 16,
            s == chars@.subrange(from as int, to as int),
            body == chars@.subrange(start as int, to as int),
            body == (if s.len() > 0 && s[0] == '+' {
                s.skip(1)
            } else {
                s
            }),
            all_digits(body.take(i - start), radix as nat),
            acc == digits_value(body.take(i - start), radix as nat),
            acc <= max,
        decreases to - i,
    {
        let ghost seen = body.take(i - start);
        let ghost next = body.take(i - start + 1);
        proof {
            assert(next.drop_last() =~= seen);
            assert(next.last() == chars@[i as int]);
        }
        match digit(chars[i], radix) {
            None => {
                proof {
                    assert(digit_of(body[i - start], radix as nat) is None);
                }
                return None;
            },
            Some(d) => {
                proof {
                    assert(acc as int * radix as int <= 0xFFFF_FFFF_FFFF_FFFF * 16) by (nonlinear_arith)
                        requires
                            0 <= acc as int <= 0xFFFF_FFFF_FFFF_FFFF,
                            0 <= radix as int <= 16,
                    ;
                }
                let wide: u128 = (acc as u128) * (radix as u128) + (d as u128);
                proof {
                    assert(wide == digits_value(next, radix as nat));
                    assert forall|j: int| 0 <= j < next.len() implies (#[trigger] digit_of(
                        next[j],
                        radix as nat,
                    )) is Some by {
                        if j < seen.len() {
                            assert(next[j] == seen[j]);
                        }
                    }
                }
                if wide > max as u128 {
                    proof {
                        lemma_digits_value_grows(body, i - start + 1, radix as nat);
                    }
                    return None;
                }
                acc = wide as u64;
                i += 1;
            },
        }
    }
    proof {
        assert(body.take(i - start) =~= body);
    }
    Some(acc)
}

/// How many characters stand from index `from` on before the next `sep`
/// or the end of `s`.
pub open spec fn field_len(s: Seq<char>, from: int, sep: char) -> nat
    decreases s.len() - from,
{
    if from < 0 || from >= s.len() || s[from] == sep {
        0
    } else {
        1 + field_len(s, from + 1, sep)
    }
}

/// The fields of `s` from `from` on, as index pairs: what stands between
/// one `sep` and the next.  A text without `sep` is one field, an empty
/// text one empty field.
pub open spec fn field_spans_from(s: Seq<char>, from: int, sep: char) -> Seq<(int, int)>
    decreases s.len() - from,
{
    let end = from + field_len(s, from, sep);
    if from < 0 || end >= s.len() {
        seq![(from, end)]
    } else {
        seq![(from, end)] + field_spans_from(s, end + 1, sep)
    }
}

/// The fields of `s` between separators `sep`.
pub open spec fn fields(s: Seq<char>, sep: char) -> Seq<Seq<char>> {
    let f = field_spans_from(s, 0, sep);
    Seq::new(f.len(), |k: int| s.subrange(f[k].0, f[k].1))
}

/// The byte that `s` writes in hexadecimal.
pub open spec fn octet_of(s: Seq<char>) -> Option<u8> {
    match number_up_to(s, 16, 255) {
        Some(v) => Some(v as u8),
        None => None,
    }
}

/// The hardware address that `s` writes: six fields between colons, each
/// a byte in hexadecimal.  `None` for any other text.
pub open spec fn mac_of(s: Seq<char>) -> Option<Seq<u8>> {
    let f = fields(s, ':');
    if f.len() == 6 && (forall|k: int| 0 <= k < 6 ==> (#[trigger] octet_of(f[k])) is Some) {
        Some(Seq::new(6, |k: int| octet_of(f[k])->0))
    } else {
        None
    }
}

/// A copy of the characters from `from` up to `to`.
pub fn copy_range(chars: &Vec<char>, from: usize, to: usize) -> (part: Vec<char>)
    requires
        from <= to <= chars.len(),
    ensures
        part@ == chars@.subrange(from as int, to as int),
{
    let mut part: Vec<char> = Vec::new();
    let mut i: usize = from;
    while i < to
        invariant
            from <= i <= to <= chars.len(),
            part@ == chars@.subrange(from as int, i as int),
        decreases to - i,
    {
        part.push(chars[i]);
        proof {
            assert(part@ =~= chars@.subrange(from as int, i + 1));
        }
        i += 1;
    }
    part
}

/// Reads a hardware address.
pub fn parse_mac(word: &Vec<char>) -> (r: Option<[u8; 6]>)
    ensures
        r is Some == mac_of(word@) is Some,
        r is Some ==> r->0@ == mac_of(word@)->0,
{
    let n = word.len();
    let ghost all = field_spans_from(word@, 0, ':');
    let ghost mut done: Seq<(int, int)> = Seq::empty();
    let mut octets: Vec<u8> = Vec::new();
    let mut start: usize = 0;
    let mut finished = false;
    while !finished
        invariant
            n == word.len(),
            start <= n,
            all == field_spans_from(word@, 0, ':'),
            octets.len() == done.len() <= 6,
            !finished ==> all == done + field_spans_from(word@, start as int, ':'),
            finished ==> all == done,
            forall|k: int| 0 <= k < done.len() ==> 0 <= (#[trigger] done[k]).0 <= done[k].1 <= n,
            forall|k: int|
                0 <= k < done.len() ==> octet_of(word@.subrange((#[trigger] done[k]).0, done[k].1)) == Some(
                    octets@[k],
                ),
        decreases
                (if finished {
                    0
                } else {
                    n - start + 1
                }),
    {
        let mut end: usize = start;
        while end < n && word[end] != ':'
            invariant
                n == word.len(),
                start <= end <= n,
                field_len(word@, start as int, ':') == (end - start) + field_len(word@, end as int, ':'),
            decreases n - end,
        {
            end += 1;
        }
        let ghost rest = field_spans_from(word@, start as int, ':');
        proof {
            assert(rest[0] == (start as int, end as int));
            assert((done + rest)[done.len() as int] == rest[0]);
        }
        if octets.len() >= 6 {
            return None;
        }
        match parse_number(word, start, end, 16, 255) {
            None => {
                proof {
                    let f = fields(word@, ':');
                    let k = done.len() as int;
                    assert(f[k] == word@.subrange(start as int, end as int));
                    assert(octet_of(f[k]) is None);
                }
                return None;
            },
            Some(v) => {
                octets.push(v as u8);
            },
        }
        proof {
            let before = done;
            done = done.push((start as int, end as int));
            if end >= n {
                assert(rest =~= seq![(start as int, end as int)]);
                assert(all =~= done);
            } else {
                assert(rest =~= seq![(start as int, end as int)] + field_spans_from(
                    word@,
                    end + 1,
                    ':',
                ));
                assert(all =~= done + field_spans_from(word@, end + 1, ':'));
            }
            assert forall|k: int| 0 <= k < done.len() implies octet_of(
                word@.subrange((#[trigger] done[k]).0, done[k].1),
            ) == Some(octets@[k]) by {
                if k < before.len() {
                    assert(done[k] == before[k]);
                }
            }
        }
        if end >= n {
            finished = true;
        } else {
            start = end + 1;
        }
    }
    if octets.len() != 6 {
        return None;
    }
    let mac: [u8; 6] = [octets[0], octets[1], octets[2], octets[3], octets[4], octets[5]];
    proof {
        let f = fields(word@, ':');
        assert forall|k: int| 0 <= k < 6 implies (#[trigger] octet_of(f[k])) == Some(octets@[k]) by {
            assert(f[k] == word@.subrange(done[k].0, done[k].1));
        }
        assert(mac@ =~= mac_of(word@)->0);
    }
    Some(mac)
}

/// The lines of `s` from `from` on, as index pairs.
pub open spec fn line_spans_from(s: Seq<char>, from: int) -> Seq<(int, int)>
    decreases s.len() - from,
{
    if from < 0 || from >= s.len() {
        Seq::empty()
    } else {
        let end = from + field_len(s, from, '\n');
        let stop = if end < s.len() && from < end && s[end - 1] == '\r' {
            end - 1
        } else {
            end
        };
        if end >= s.len() {
            seq![(from, stop)]
        } else {
            seq![(from, stop)] + line_spans_from(s, end + 1)
        }
    }
}

/// The lines of a text.  A line ends at a line feed, which is no part of
/// it, and neither is a carriage return that stands just before that line
/// feed.  What follows the last line feed is a line too, unless it is
/// empty.
pub open spec fn lines_of(s: Seq<char>) -> Seq<Seq<char>> {
    let l = line_spans_from(s, 0);
    Seq::new(l.len(), |k: int| s.subrange(l[k].0, l[k].1))
}

/// The text of each string.
pub open spec fn texts(v: Seq<String>) -> Seq<Seq<char>> {
    Seq::new(v.len(), |k: int| v[k]@)
}

/// Splits a text into its lines.
pub fn split_lines(text: &str) -> (lines: Vec<String>)
    ensures
        texts(lines@) == lines_of(text@),
{
    let chars = chars_of(text);
    let n = chars.len();
    let ghost all = line_spans_from(chars@, 0);
    let mut lines: Vec<String> = Vec::new();
    let mut start: usize = 0;
    while start < n
        invariant
            n == chars.len(),
            chars@ == text@,
            start <= n,
            all == line_spans_from(chars@, 0),
            lines.len() <= all.len(),
            all.len() == lines.len() + line_spans_from(chars@, start as int).len(),
            forall|k: int|
                0 <= k < lines.len() ==> (#[trigger] lines@[k])@ == chars@.subrange(all[k].0, all[k].1),
            forall|k: int|
                0 <= k < line_spans_from(chars@, start as int).len() ==> all[lines.len() + k]
                    == #[trigger] line_spans_from(chars@, start as int)[k],
        decreases n - start,
    {
        let mut end: usize = start;
        while end < n && chars[end] != '\n'
            invariant
                n == chars.len(),
                start <= end <= n,
                field_len(chars@, start as int, '\n') == (end - start) + field_len(chars@, end as int, '\n'),
            decreases n - end,
        {
            end += 1;
        }
        let stop: usize = if end < n && start < end && chars[end - 1] == '\r' {
            end - 1
        } else {
            end
        };
        let ghost rest = line_spans_from(chars@, start as int);
        proof {
            assert(rest[0] == (start as int, stop as int));
            if end < n {
                assert(rest =~= seq![(start as int, stop as int)] + line_spans_from(chars@, end + 1));
            } else {
                assert(rest =~= seq![(start as int, stop as int)]);
            }
            let next = if end < n {
                end + 1
            } else {
                n as int
            };
            assert forall|k: int| 0 <= k < line_spans_from(chars@, next).len() implies all[lines.len() + 1
                + k] == #[trigger] line_spans_from(chars@, next)[k] by {
                assert(rest[k + 1] == line_spans_from(chars@, next)[k]);
            }
        }
        let line = text.substring_char(start, stop).to_owned();
        lines.push(line);
        start = if end < n {
            end + 1
        } else {
            n
        };
    }
    proof {
        assert(texts(lines@) =~= lines_of(text@));
    }
    lines
}

} // verus!
