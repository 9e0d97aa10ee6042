//! Character-level text utilities shared by the configuration and HTTP code.
use vstd::prelude::*;
use vstd::utf8::{decode_utf8, is_ascii_chars, valid_utf8};

verus! {

/// The Unicode `White_Space` property, as `char::is_whitespace` defines it.
pub open spec fn spec_is_whitespace(c: char) -> bool {
    let u = c as u32;
    ||| 0x09 <= u <= 0x0d
    ||| u == 0x20
    ||| u == 0x85
    ||| u == 0xa0
    ||| u == 0x1680
    ||| 0x2000 <= u <= 0x200a
    ||| u == 0x2028
    ||| u == 0x2029
    ||| u == 0x202f
    ||| u == 0x205f
    ||| u == 0x3000
}

/// Whether `c` is a Unicode whitespace character.
pub fn is_whitespace(c: char) -> (b: bool)
    ensures
        b == spec_is_whitespace(c),
{
    let u = c as u32;
    (0x09 <= u && u <= 0x0d) || u == 0x20 || u == 0x85 || u == 0xa0 || u == 0x1680 || (0x2000
        <= u && u <= 0x200a) || u == 0x2028 || u == 0x2029 || u == 0x202f || u == 0x205f || u
        == 0x3000
}

/// Appends one character to a string: `String::push`.
/// Trusted: the character sequence of the string afterwards is the old one
/// with `c` added at its end, as the documentation of `String::push` says.
#[verifier::external_body]
pub(crate) fn push_char(s: &mut String, c: char)
    ensures
        final(s)@ == old(s)@.push(c),
{
    s.push(c);
}

/// The characters of `s`, in order.
pub fn chars_of(s: &str) -> (v: Vec<char>)
    ensures
        v@ == s@,
{
    let mut v: Vec<char> = Vec::new();
    for c in it: s.chars()
        invariant
            it.seq() == s@,
            v@ == s@.take(it.index() as int),
    {
        proof {
            assert(s@.take(it.index() + 1) == s@.take(it.index() as int).push(c));
        }
        v.push(c);
    }
    proof {
        assert(s@.take(s@.len() as int) == s@);
    }
    v
}

/// A string holding the characters `v[lo..hi]`.
pub fn string_from(v: &[char], lo: usize, hi: usize) -> (s: String)
    requires
        lo <= hi <= v@.len(),
    ensures
        s@ == v@.subrange(lo as int, hi as int),
{
    let mut s = String::new();
    let mut i = lo;
    while i < hi
        invariant
            lo <= i <= hi <= v@.len(),
            s@ == v@.subrange(lo as int, i as int),
        decreases hi - i,
    {
        push_char(&mut s, v[i]);
        proof {
            assert(v@.subrange(lo as int, i + 1) == v@.subrange(lo as int, i as int).push(v@[i as int]));
        }
        i = i + 1;
    }
    s
}


/// Whether two character sequences are equal.
pub fn chars_equal(a: &[char], b: &[char]) -> (r: bool)
    ensures
        r == (a@ == b@),
{
    if a.len() != b.len() {
        return false;
    }
    let mut i: usize = 0;
    while i < a.len()
        invariant
            a@.len() == b@.len(),
            i <= a@.len(),
            forall|j: int| 0 <= j < i ==> a@[j] == b@[j],
        decreases a@.len() - i,
    {
        if a[i] != b[i] {
            return false;
        }
        i = i + 1;
    }
    assert(a@ =~= b@);
    true
}

/// Whether two strings are equal.
pub fn str_equal(a: &str, b: &str) -> (r: bool)
    ensures
        r == (a@ == b@),
{
    let va = chars_of(a);
    let vb = chars_of(b);
    chars_equal(va.as_slice(), vb.as_slice())
}

/// An ASCII decimal digit.
pub open spec fn is_digit(c: char) -> bool {
    '0' <= c <= '9'
}

/// The value of an ASCII decimal digit.
pub open spec fn digit_value(c: char) -> nat {
    (c as int - '0' as int) as nat
}

/// The character of a decimal digit `d < 10`.
pub open spec fn digit_char(d: nat) -> char {
    (d + '0' as nat) as char
}

/// Whether every character of `s` is a decimal digit.
pub open spec fn all_digits(s: Seq<char>) -> bool {
    forall|i: int| 0 <= i < s.len() ==> #[trigger] is_digit(s[i])
}

/// The number that the decimal digits `s` spell, most significant first.
pub open spec fn digits_value(s: Seq<char>) -> nat
    decreases s.len(),
{
    if s.len() == 0 {
        0
    } else {
        digits_value(s.drop_last()) * 10 + digit_value(s.last())
    }
}

/// What `str::parse` reads as an unsigned integer, before the bound of the
/// target type applies: an optional `+`, then one or more ASCII digits.
pub open spec fn unsigned_value(s: Seq<char>) -> Option<nat> {
    let d = if s.len() > 0 && s[0] == '+' {
        s.drop_first()
    } else {
        s
    };
    if d.len() > 0 && all_digits(d) {
        Some(digits_value(d))
    } else {
        None
    }
}

/// What `str::parse::<T>` returns for an unsigned `T` whose largest value is `max`.
pub open spec fn parse_unsigned(s: Seq<char>, max: nat) -> Option<nat> {
    match unsigned_value(s) {
        Some(v) => if v <= max {
            Some(v)
        } else {
            None
        },
        None => None,
    }
}

/// The decimal representation of `n`, as `to_string` writes it.
pub open spec fn decimal(n: nat) -> Seq<char>
    decreases n,
{
    if n < 10 {
        seq![digit_char(n)]
    } else {
        decimal(n / 10).push(digit_char(n % 10))
    }
}

proof fn lemma_digits_value_prefix(s: Seq<char>, k: int)
    requires
        0 <= k <= s.len(),
    ensures
        digits_value(s.take(k)) <= digits_value(s),
    decreases s.len(),
{
    if k < s.len() {
        assert(s.drop_last().take(k) == s.take(k));
        lemma_digits_value_prefix(s.drop_last(), k);
    } else {
        assert(s.take(k) == s);
    }
}

/// Parses `s[lo..]` as `str::parse` parses an unsigned integer no larger than `max`.
fn parse_bounded(s: &[char], max: usize) -> (r: Option<usize>)
    ensures
        r matches Some(n) ==> parse_unsigned(s@, max as nat) == Some(n as nat),
        r is None ==> parse_unsigned(s@, max as nat) is None,
{
    let len = s.len();
    let start: usize = if len > 0 && s[0] == '+' { 1 } else { 0 };
    let ghost d = if s@.len() > 0 && s@[0] == '+' { s@.drop_first() } else { s@ };
    assert(d == s@.subrange(start as int, len as int));
    if start == len {
        return None;
    }
    let mut acc: usize = 0;
    let mut i: usize = start;
    while i < len
        invariant
            start <= i <= len == s@.len(),
            d == s@.subrange(start as int, len as int),
            d == (if s@.len() > 0 && s@[0] == '+' { s@.drop_first() } else { s@ }),
            all_digits(d.take(i - start)),
            acc as nat == digits_value(d.take(i - start)),
            acc <= max,
        decreases len - i,
    {
        let c = s[i];
        let k: Ghost<int> = Ghost(i - start);
        assert(d.take(k@ + 1).drop_last() == d.take(k@));
        assert(d[k@] == c);
        if !('0' <= c && c <= '9') {
            assert(!is_digit(d[k@]));
            assert(!all_digits(d));
            assert(unsigned_value(s@) is None);
            return None;
        }
        let dv: usize = (c as u32 - '0' as u32) as usize;
        assert(dv as nat == digit_value(c));
        match acc.checked_mul(10) {
            None => {
                proof { lemma_digits_value_prefix(d, k@ + 1); }
                return None;
            },
            Some(m) => match m.checked_add(dv) {
                None => {
                    proof { lemma_digits_value_prefix(d, k@ + 1); }
                    return None;
                },
                Some(v) => {
                    if v > max {
                        proof { lemma_digits_value_prefix(d, k@ + 1); }
                        return None;
                    }
                    acc = v;
                },
            },
        }
        i = i + 1;
    }
    assert(d.take(len - start) == d);
    Some(acc)
}

/// Parses `s` as `str::parse::<usize>` does.
pub fn parse_usize(s: &[char]) -> (r: Option<usize>)
    ensures
        r matches Some(n) ==> parse_unsigned(s@, usize::MAX as nat) == Some(n as nat),
        r is None ==> parse_unsigned(s@, usize::MAX as nat) is None,
{
    parse_bounded(s, usize::MAX)
}

/// Parses `s` as `str::parse::<u16>` does.
pub fn parse_u16(s: &[char]) -> (r: Option<u16>)
    ensures
        r matches Some(n) ==> parse_unsigned(s@, u16::MAX as nat) == Some(n as nat),
        r is None ==> parse_unsigned(s@, u16::MAX as nat) is None,
{
    match parse_bounded(s, 65535) {
        Some(n) => Some(n as u16),
        None => None,
    }
}

/// Appends the decimal representation of `n` to `s`.
pub fn push_decimal(s: &mut String, n: usize)
    ensures
        final(s)@ == old(s)@ + decimal(n as nat),
    decreases n,
{
    if n >= 10 {
        push_decimal(s, n / 10);
    }
    let d: u8 = (n % 10) as u8;
    let c = (d + 48u8) as char;
    assert(c == digit_char((n % 10) as nat));
    push_char(s, c);
}

/// Decimal text and decimal parsing undo each other: the text that
/// `push_decimal` writes for `n` parses back to `n`.
pub proof fn law_decimal_parses_back(n: nat)
    ensures
        unsigned_value(decimal(n)) == Some(n),
        digits_value(decimal(n)) == n,
        decimal(n).len() > 0,
        all_digits(decimal(n)),
    decreases n,
{
    if n >= 10 {
        law_decimal_parses_back(n / 10);
    }
    let t = decimal(n);
    if n >= 10 {
        assert(t.drop_last() == decimal(n / 10));
        assert(t[0] == decimal(n / 10)[0]);
        let d = n % 10;
        assert(digit_char(d) as u32 == d + 48);
        assert(digit_value(t.last()) == d);
        assert((n / 10) * 10 + d == n);
        assert(digits_value(t) == n);
        assert forall|i: int| 0 <= i < t.len() implies #[trigger] is_digit(t[i]) by {
            if i < t.len() - 1 {
                assert(t[i] == decimal(n / 10)[i]);
            }
        }
    } else {
        assert(digit_char(n) as u32 == n + 48);
        assert(digit_value(t.last()) == n);
        assert(t.drop_last() =~= Seq::<char>::empty());
        assert(digits_value(t.drop_last()) == 0);
        assert(digits_value(t) == n);
    }
    assert('+' as u32 == 43);
    assert(is_digit(t[0]));
    assert(t[0] != '+');
}


/// The views of a sequence of character vectors.
pub open spec fn seqs_view(v: Seq<Vec<char>>) -> Seq<Seq<char>> {
    v.map_values(|x: Vec<char>| x@)
}

/// A line without the `\r` of a `\r\n` ending.
pub open spec fn strip_cr(l: Seq<char>) -> Seq<char> {
    if l.len() > 0 && l.last() == '\r' {
        l.drop_last()
    } else {
        l
    }
}

/// The finished lines and the line under construction after reading `s`.
pub open spec fn lines_state(s: Seq<char>) -> (Seq<Seq<char>>, Seq<char>)
    decreases s.len(),
{
    if s.len() == 0 {
        (seq![], seq![])
    } else {
        let (done, cur) = lines_state(s.drop_last());
        if s.last() == '\n' {
            (done.push(strip_cr(cur)), seq![])
        } else {
            (done, cur.push(s.last()))
        }
    }
}

/// The lines of `s`, as `str::lines` gives them: split at `\n`, a `\r`
/// before the `\n` removed, and no final empty line.
pub open spec fn spec_lines(s: Seq<char>) -> Seq<Seq<char>> {
    let (done, cur) = lines_state(s);
    if cur.len() > 0 {
        done.push(cur)
    } else {
        done
    }
}

/// Reading characters without a `\n` only extends the line under
/// construction.
pub proof fn lemma_lines_state_plain(x: Seq<char>, y: Seq<char>)
    requires
        forall|i: int| 0 <= i < y.len() ==> y[i] != '\n',
    ensures
        lines_state(x + y) == (lines_state(x).0, lines_state(x).1 + y),
    decreases y.len(),
{
    if y.len() == 0 {
        assert(x + y =~= x);
        assert(lines_state(x).1 + y =~= lines_state(x).1);
    } else {
        let z = y.drop_last();
        assert((x + y).drop_last() =~= x + z);
        assert((x + y).last() == y.last());
        lemma_lines_state_plain(x, z);
        assert((lines_state(x).1 + z).push(y.last()) =~= lines_state(x).1 + y);
    }
}

/// A text that ends inside a line, followed by `\r\n` and a further line
/// without `\n`, has the lines of the text and then that line.
pub proof fn lemma_lines_append_line(t: Seq<char>, line: Seq<char>)
    requires
        t.len() > 0,
        t.last() != '\n',
        line.len() > 0,
        forall|i: int| 0 <= i < line.len() ==> line[i] != '\n',
    ensures
        spec_lines(t + seq!['\r', '\n'] + line) == spec_lines(t).push(line),
{
    let (done, cur) = lines_state(t);
    assert(t.drop_last() + seq![t.last()] =~= t);
    lemma_lines_state_plain(t.drop_last(), seq![t.last()]);
    assert(cur.len() > 0);
    let u = t + seq!['\r'];
    lemma_lines_state_plain(t, seq!['\r']);
    assert(strip_cr(cur + seq!['\r']) =~= cur);
    let w = u.push('\n');
    assert(w.drop_last() =~= u);
    assert(lines_state(w) == (done.push(cur), Seq::<char>::empty()));
    lemma_lines_state_plain(w, line);
    assert(t + seq!['\r', '\n'] + line =~= w + line);
    assert(Seq::<char>::empty() + line =~= line);
}

/// The lines of `s`, as `str::lines` gives them.
pub fn lines(s: &[char]) -> (r: Vec<Vec<char>>)
    ensures
        seqs_view(r@) == spec_lines(s@),
{
    let mut done: Vec<Vec<char>> = Vec::new();
    let mut cur: Vec<char> = Vec::new();
    let mut i: usize = 0;
    while i < s.len()
        invariant
            i <= s@.len(),
            seqs_view(done@) == lines_state(s@.take(i as int)).0,
            cur@ == lines_state(s@.take(i as int)).1,
        decreases s@.len() - i,
    {
        let c = s[i];
        assert(s@.take(i + 1).drop_last() == s@.take(i as int));
        if c == '\n' {
            let mut line = Vec::new();
            std::mem::swap(&mut line, &mut cur);
            let n = line.len();
            if n > 0 && line[n - 1] == '\r' {
                line.pop();
            }
            let ghost before = done@;
            done.push(line);
            assert(seqs_view(done@) =~= seqs_view(before).push(line@));
        } else {
            cur.push(c);
        }
        i = i + 1;
    }
    assert(s@.take(s@.len() as int) == s@);
    if cur.len() > 0 {
        let ghost before = done@;
        done.push(cur);
        assert(seqs_view(done@) =~= seqs_view(before).push(cur@));
    }
    done
}

/// The words so far after ending the word under construction, if any.
pub open spec fn flush_word(done: Seq<Seq<char>>, cur: Seq<char>) -> Seq<Seq<char>> {
    if cur.len() > 0 {
        done.push(cur)
    } else {
        done
    }
}

/// The finished words and the word under construction after reading `s`.
pub open spec fn words_state(s: Seq<char>) -> (Seq<Seq<char>>, Seq<char>)
    decreases s.len(),
{
    if s.len() == 0 {
        (seq![], seq![])
    } else {
        let (done, cur) = words_state(s.drop_last());
        if spec_is_whitespace(s.last()) {
            (flush_word(done, cur), seq![])
        } else {
            (done, cur.push(s.last()))
        }
    }
}

/// The words of `s`, as `str::split_whitespace` gives them: the maximal
/// runs of characters that are not whitespace.
pub open spec fn spec_words(s: Seq<char>) -> Seq<Seq<char>> {
    flush_word(words_state(s).0, words_state(s).1)
}

/// The words of `s`, as `str::split_whitespace` gives them.
pub fn words(s: &[char]) -> (r: Vec<Vec<char>>)
    ensures
        seqs_view(r@) == spec_words(s@),
{
    let mut done: Vec<Vec<char>> = Vec::new();
    let mut cur: Vec<char> = Vec::new();
    let mut i: usize = 0;
    while i < s.len()
        invariant
            i <= s@.len(),
            seqs_view(done@) == words_state(s@.take(i as int)).0,
            cur@ == words_state(s@.take(i as int)).1,
        decreases s@.len() - i,
    {
        let c = s[i];
        assert(s@.take(i + 1).drop_last() == s@.take(i as int));
        if is_whitespace(c) {
            if cur.len() > 0 {
                let mut word = Vec::new();
                std::mem::swap(&mut word, &mut cur);
                let ghost before = done@;
                done.push(word);
                assert(seqs_view(done@) =~= seqs_view(before).push(word@));
            }
        } else {
            cur.push(c);
        }
        i = i + 1;
    }
    assert(s@.take(s@.len() as int) == s@);
    if cur.len() > 0 {
        let ghost before = done@;
        done.push(cur);
        assert(seqs_view(done@) =~= seqs_view(before).push(cur@));
    }
    done
}

/// `s` without its leading whitespace.
pub open spec fn trim_start(s: Seq<char>) -> Seq<char>
    decreases s.len(),
{
    if s.len() > 0 && spec_is_whitespace(s[0]) {
        trim_start(s.drop_first())
    } else {
        s
    }
}

/// `s` without its trailing whitespace.
pub open spec fn trim_end(s: Seq<char>) -> Seq<char>
    decreases s.len(),
{
    if s.len() > 0 && spec_is_whitespace(s.last()) {
        trim_end(s.drop_last())
    } else {
        s
    }
}

/// `s` without leading and trailing whitespace, as `str::trim` gives it.
pub open spec fn spec_trim(s: Seq<char>) -> Seq<char> {
    trim_end(trim_start(s))
}

/// `s` without leading and trailing whitespace, as `str::trim` gives it.
pub fn trim(s: &[char]) -> (r: Vec<char>)
    ensures
        r@ == spec_trim(s@),
{
    let n = s.len();
    let mut lo: usize = 0;
    assert(s@.skip(0) == s@);
    while lo < n && is_whitespace(s[lo])
        invariant
            lo <= n == s@.len(),
            trim_start(s@) == trim_start(s@.skip(lo as int)),
        decreases n - lo,
    {
        assert(s@.skip(lo as int).drop_first() == s@.skip(lo + 1));
        lo = lo + 1;
    }
    assert(trim_start(s@) == s@.skip(lo as int));
    let mut hi: usize = n;
    while hi > lo && is_whitespace(s[hi - 1])
        invariant
            lo <= hi <= n == s@.len(),
            trim_end(s@.skip(lo as int)) == trim_end(s@.subrange(lo as int, hi as int)),
        decreases hi,
    {
        assert(s@.subrange(lo as int, hi as int).drop_last() == s@.subrange(lo as int, hi - 1));
        hi = hi - 1;
    }
    assert(s@.skip(lo as int) == s@.subrange(lo as int, n as int));
    let mut r: Vec<char> = Vec::new();
    let mut i = lo;
    while i < hi
        invariant
            lo <= i <= hi <= n == s@.len(),
            r@ == s@.subrange(lo as int, i as int),
        decreases hi - i,
    {
        r.push(s[i]);
        assert(r@ =~= s@.subrange(lo as int, i + 1));
        i = i + 1;
    }
    r
}

/// The index of the first `c` in `s` at or after `i`.
pub open spec fn first_index_from(s: Seq<char>, c: char, i: int) -> Option<int>
    decreases s.len() - i,
{
    if i < 0 || i >= s.len() {
        None
    } else if s[i] == c {
        Some(i)
    } else {
        first_index_from(s, c, i + 1)
    }
}

pub proof fn lemma_first_index_from(s: Seq<char>, c: char, i: int)
    ensures
        first_index_from(s, c, i) matches Some(j) ==> 0 <= i <= j < s.len() && s[j] == c
            && forall|k: int| i <= k < j ==> s[k] != c,
    decreases s.len() - i,
{
    if 0 <= i < s.len() && s[i] != c {
        lemma_first_index_from(s, c, i + 1);
    }
}

/// `s` split at its first `c`, as `str::split_once` gives it.
pub open spec fn spec_split_once(s: Seq<char>, c: char) -> Option<(Seq<char>, Seq<char>)> {
    match first_index_from(s, c, 0) {
        Some(i) => Some((s.take(i), s.skip(i + 1))),
        None => None,
    }
}

/// The index of the first `c` in `s`.
pub fn find_char(s: &[char], c: char) -> (r: Option<usize>)
    ensures
        r matches Some(i) ==> first_index_from(s@, c, 0) == Some(i as int),
        r is None ==> first_index_from(s@, c, 0) is None,
{
    let mut i: usize = 0;
    while i < s.len()
        invariant
            i <= s@.len(),
            first_index_from(s@, c, 0) == first_index_from(s@, c, i as int),
        decreases s@.len() - i,
    {
        if s[i] == c {
            return Some(i);
        }
        i = i + 1;
    }
    None
}

/// A copy of `s[lo..hi]`.
pub fn sub_vec(s: &[char], lo: usize, hi: usize) -> (r: Vec<char>)
    requires
        lo <= hi <= s@.len(),
    ensures
        r@ == s@.subrange(lo as int, hi as int),
{
    let mut r: Vec<char> = Vec::new();
    let mut i = lo;
    while i < hi
        invariant
            lo <= i <= hi <= s@.len(),
            r@ == s@.subrange(lo as int, i as int),
        decreases hi - i,
    {
        r.push(s[i]);
        assert(r@ =~= s@.subrange(lo as int, i + 1));
        i = i + 1;
    }
    r
}

/// What `str::to_lowercase` returns for `s` (full Unicode case mapping).
pub uninterp spec fn str_lowercase(s: Seq<char>) -> Seq<char>;

/// The lowercase of an ASCII character: `A` to `Z` become `a` to `z`.
pub open spec fn ascii_lower(c: char) -> char {
    if 'A' <= c <= 'Z' {
        ((c as u32) + 32) as char
    } else {
        c
    }
}

/// What `str::to_lowercase` returns: letter by letter for ASCII text, and
/// `str_lowercase` (full Unicode case mapping) otherwise.
pub open spec fn text_lowercase(s: Seq<char>) -> Seq<char> {
    if is_ascii_chars(s) {
        s.map_values(|c: char| ascii_lower(c))
    } else {
        str_lowercase(s)
    }
}

/// Lowercases `s`: `str::to_lowercase`.
/// Trusted: the result is `str_lowercase` of the characters of `s`, and for
/// ASCII text each letter `A` to `Z` lowered and every other character kept,
/// as the Unicode lowercase mapping gives it; the mapping of other
/// characters is not stated.
#[verifier::external_body]
pub(crate) fn to_lowercase(s: &str) -> (r: String)
    ensures
        r@ == str_lowercase(s@),
        is_ascii_chars(s@) ==> r@ == s@.map_values(|c: char| ascii_lower(c)),
{
    s.to_lowercase()
}

/// What `String::from_utf8_lossy` decodes from `b`.
pub uninterp spec fn utf8_lossy(b: Seq<u8>) -> Seq<char>;

/// Decodes `b` as UTF-8, each invalid sequence replaced by U+FFFD:
/// `String::from_utf8_lossy`.
/// Trusted: the result is `utf8_lossy` of the bytes, and, as the
/// documentation says, the plain UTF-8 decoding where the bytes are valid
/// UTF-8; the replacement of invalid sequences is not stated.
#[verifier::external_body]
pub(crate) fn decode_utf8_lossy(b: &[u8]) -> (s: String)
    ensures
        s@ == utf8_lossy(b@),
        valid_utf8(b@) ==> s@ == decode_utf8(b@),
{
    String::from_utf8_lossy(b).into_owned()
}

} // verus!
