//! Lines of text as characters: whitespace, words, trimming and decimal numbers.
use vstd::prelude::*;
use crate::grid::view_grid;

verus! {

/// The characters of `line`, in order.
pub fn chars_of(line: &str) -> (v: Vec<char>)
    ensures
        v@ == line@,
{
    let mut v: Vec<char> = Vec::new();
    for ch in it: line.chars()
        invariant
            v@ == it.seq().take(it.index() as int),
            it.seq() == line@,
    {
        v.push(ch);
    }
    v
}

/// Unicode white space, as `char::is_whitespace` defines it.
pub open spec fn is_ws(c: char) -> bool {
    let u = c as u32;
    ||| 0x09 <= u <= 0x0d
    ||| u == 0x20
    ||| u == 0x85
    ||| u == 0xa0
    ||| u == 0x1680
    ||| 0x2000 <= u <= 0x200a
    ||| u == 0x2028
    ||| u == 0x2029
    ||| u == 0x202f
    ||| u == 0x205f
    ||| u == 0x3000
}

pub fn whitespace(c: char) -> (res: bool)
    ensures
        res == is_ws(c),
{
    let u = c as u32;
    (0x09 <= u && u <= 0x0d) || u == 0x20 || u == 0x85 || u == 0xa0 || u == 0x1680 || (0x2000 <= u
        && u <= 0x200a) || u == 0x2028 || u == 0x2029 || u == 0x202f || u == 0x205f || u == 0x3000
}

/// The words of `s`: its maximal runs of characters other than white space, in order.
pub open spec fn words(s: Seq<char>) -> Seq<Seq<char>>
    decreases s.len(),
{
    if s.len() == 0 {
        Seq::empty()
    } else {
        let before = words(s.drop_last());
        let ch = s.last();
        if is_ws(ch) {
            before
        } else if s.len() >= 2 && !is_ws(s[s.len() - 2]) {
            before.drop_last().push(before.last().push(ch))
        } else {
            before.push(seq![ch])
        }
    }
}

/// `s` without its trailing white space.
pub open spec fn trim_end(s: Seq<char>) -> Seq<char>
    decreases s.len(),
{
    if s.len() > 0 && is_ws(s.last()) {
        trim_end(s.drop_last())
    } else {
        s
    }
}

/// `s` without its trailing ':' characters.
pub open spec fn trim_colons(s: Seq<char>) -> Seq<char>
    decreases s.len(),
{
    if s.len() > 0 && s.last() == ':' {
        trim_colons(s.drop_last())
    } else {
        s
    }
}

/// What follows the first ' ' of `s`; nothing when `s` holds no ' '.
pub open spec fn after_first_space(s: Seq<char>) -> Seq<char>
    decreases s.len(),
{
    if s.len() == 0 {
        Seq::empty()
    } else if s[0] == ' ' {
        s.drop_first()
    } else {
        after_first_space(s.drop_first())
    }
}

pub fn split_words(s: &Vec<char>) -> (w: Vec<Vec<char>>)
    ensures
        view_grid(w@) == words(s@),
{
    let mut w: Vec<Vec<char>> = Vec::new();
    let mut cur: Vec<char> = Vec::new();
    let mut i: usize = 0;
    while i < s.len()
        invariant
            i <= s@.len(),
            cur@.len() > 0 <==> (i > 0 && !is_ws(s@[i - 1])),
            words(s@.take(i as int)) == if cur@.len() > 0 {
                view_grid(w@).push(cur@)
            } else {
                view_grid(w@)
            },
        decreases s@.len() - i,
    {
        let ch = s[i];
        let ghost prefix = s@.take(i + 1);
        assert(prefix.drop_last() =~= s@.take(i as int));
        assert(prefix.last() == ch);
        if whitespace(ch) {
            if cur.len() > 0 {
                let ghost before = view_grid(w@);
                w.push(cur);
                assert(view_grid(w@) =~= before.push(cur@));
                cur = Vec::new();
            }
        } else {
            let ghost before = view_grid(w@);
            if cur.len() > 0 {
                assert(prefix[prefix.len() - 2] == s@[i - 1]);
                cur.push(ch);
                assert(words(prefix) =~= before.push(cur@));
            } else {
                cur.push(ch);
                assert(cur@ =~= seq![ch]);
            }
        }
        i += 1;
    }
    assert(s@.take(s@.len() as int) =~= s@);
    if cur.len() > 0 {
        let ghost before = view_grid(w@);
        w.push(cur);
        assert(view_grid(w@) =~= before.push(cur@));
    }
    proof {
        if w@.len() == 0 {
            assert(view_grid(w@) =~= Seq::<Seq<char>>::empty());
        }
    }
    w
}

pub fn trim_end_chars(s: &Vec<char>) -> (t: usize)
    ensures
        t <= s@.len(),
        s@.take(t as int) == trim_end(s@),
{
    let mut t = s.len();
    assert(s@.take(t as int) =~= s@);
    while t > 0 && whitespace(s[t - 1])
        invariant
            t <= s@.len(),
            trim_end(s@.take(t as int)) == trim_end(s@),
        decreases t,
    {
        assert(s@.take(t as int).drop_last() =~= s@.take(t - 1));
        t -= 1;
    }
    t
}

pub open spec fn is_digit(c: char) -> bool {
    '0' <= c <= '9'
}

/// The value of a run of decimal digits.
pub open spec fn digits_value(d: Seq<char>) -> int
    decreases d.len(),
{
    if d.len() == 0 {
        0
    } else {
        digits_value(d.drop_last()) * 10 + (d.last() as int - '0' as int)
    }
}

/// The digits of an unsigned number, after an optional leading '+'.
pub open spec fn unsigned_digits(s: Seq<char>) -> Seq<char> {
    if s.len() > 0 && s[0] == '+' {
        s.drop_first()
    } else {
        s
    }
}

/// `s` is a `usize` as `str::parse` reads one: an optional '+', then at
/// least one decimal digit, and a value that fits.
pub open spec fn parses_usize(s: Seq<char>) -> bool {
    let d = unsigned_digits(s);
    &&& d.len() > 0
    &&& forall|i: int| 0 <= i < d.len() ==> is_digit(#[trigger] d[i])
    &&& digits_value(d) <= usize::MAX
}

/// The number `s` reads as, when it reads as a `usize`.
pub open spec fn usize_value(s: Seq<char>) -> Option<usize> {
    if parses_usize(s) {
        Some(digits_value(unsigned_digits(s)) as usize)
    } else {
        None
    }
}

proof fn lemma_digits_value_grows(d: Seq<char>, i: int)
    requires
        0 <= i <= d.len(),
        forall|j: int| 0 <= j < d.len() ==> is_digit(#[trigger] d[j]),
    ensures
        0 <= digits_value(d.take(i)) <= digits_value(d),
    decreases d.len() - i,
{
    if i < d.len() {
        lemma_digits_value_grows(d, i + 1);
        assert(d.take(i + 1).drop_last() =~= d.take(i));
        assert(d.take(i + 1).last() == d[i]);
    } else {
        assert(d.take(i) =~= d);
        lemma_digits_value_nonneg(d);
    }
}

proof fn lemma_digits_value_nonneg(d: Seq<char>)
    requires
        forall|j: int| 0 <= j < d.len() ==> is_digit(#[trigger] d[j]),
    ensures
        0 <= digits_value(d),
    decreases d.len(),
{
    if d.len() > 0 {
        let p = d.drop_last();
        assert forall|j: int| 0 <= j < p.len() implies is_digit(#[trigger] p[j]) by {
            assert(p[j] == d[j]);
        }
        lemma_digits_value_nonneg(p);
        assert(is_digit(d[d.len() - 1]));
    }
}

/// Reads `s[from..to]` as the decimal digits of a `usize`.
fn digits_to_usize(s: &Vec<char>, from: usize, to: usize) -> (res: Option<usize>)
    requires
        from <= to <= s@.len(),
    ensures
        ({
            let d = s@.subrange(from as int, to as int);
            res == if (forall|i: int| 0 <= i < d.len() ==> is_digit(#[trigger] d[i])) && digits_value(d)
                <= usize::MAX {
                Some(digits_value(d) as usize)
            } else {
                None::<usize>
            }
        }),
{
    let ghost d = s@.subrange(from as int, to as int);
    let mut value: usize = 0;
    let mut i: usize = from;
    while i < to
        invariant
            from <= i <= to <= s@.len(),
            d == s@.subrange(from as int, to as int),
            forall|j: int| 0 <= j < i - from ==> is_digit(#[trigger] d[j]),
            value as int == digits_value(d.take(i - from)),
        decreases to - i,
    {
        let ch = s[i];
        assert(ch == d[i - from]);
        if !('0' <= ch && ch <= '9') {
            return None;
        }
        let digit = (ch as u32 - '0' as u32) as usize;
        assert(d.take(i + 1 - from).drop_last() =~= d.take(i - from));
        assert(d.take(i + 1 - from).last() == ch);
        let grown = value.checked_mul(10);
        match grown {
            None => {
                proof {
                    lemma_digits_tail_big(d, (i + 1 - from) as int);
                }
                return None;
            },
            Some(v10) => {
                match v10.checked_add(digit) {
                    None => {
                        proof {
                            lemma_digits_tail_big(d, (i + 1 - from) as int);
                        }
                        return None;
                    },
                    Some(v) => {
                        value = v;
                    },
                }
            },
        }
        i += 1;
    }
    assert(d.take(to - from) =~= d);
    Some(value)
}

/// When the value of a prefix of digits overflows, either a later character
/// is not a digit or the whole value overflows too.
proof fn lemma_digits_tail_big(d: Seq<char>, k: int)
    requires
        0 < k <= d.len(),
        forall|j: int| 0 <= j < k ==> is_digit(#[trigger] d[j]),
        digits_value(d.take(k)) > usize::MAX,
    ensures
        !((forall|i: int| 0 <= i < d.len() ==> is_digit(#[trigger] d[i])) && digits_value(d)
            <= usize::MAX),
{
    if forall|i: int| 0 <= i < d.len() ==> is_digit(#[trigger] d[i]) {
        lemma_digits_value_grows(d, k);
    }
}

/// Reads `s` as `str::parse::<usize>` does: `None` where that fails.
pub fn parse_usize(s: &Vec<char>) -> (res: Option<usize>)
    ensures
        res == usize_value(s@),
{
    let ghost d = unsigned_digits(s@);
    let from: usize = if s.len() > 0 && s[0] == '+' {
        1
    } else {
        0
    };
    assert(s@.subrange(from as int, s@.len() as int) =~= d);
    if from == s.len() {
        return None;
    }
    digits_to_usize(s, from, s.len())
}

/// `s` without its leading white space.
pub open spec fn trim_start(s: Seq<char>) -> Seq<char>
    decreases s.len(),
{
    if s.len() > 0 && is_ws(s[0]) {
        trim_start(s.drop_first())
    } else {
        s
    }
}

/// `s` without leading or trailing white space.
pub open spec fn trim(s: Seq<char>) -> Seq<char> {
    trim_start(trim_end(s))
}

/// `s` begins with `pat`.
pub open spec fn starts_with(s: Seq<char>, pat: Seq<char>) -> bool {
    pat.len() <= s.len() && s.take(pat.len() as int) == pat
}

/// `pat` occurs in `s` starting at position `i`.
pub open spec fn run_at(s: Seq<char>, pat: Seq<char>, i: int) -> bool {
    0 <= i && i + pat.len() <= s.len() && s.subrange(i, i + pat.len()) == pat
}

/// `pat` occurs somewhere in `s`.
pub open spec fn contains_run(s: Seq<char>, pat: Seq<char>) -> bool {
    exists|i: int| #[trigger] run_at(s, pat, i)
}

/// The characters of `s` without leading or trailing white space.
pub fn trimmed(s: &Vec<char>) -> (t: Vec<char>)
    ensures
        t@ == trim(s@),
{
    let end = trim_end_chars(s);
    let mut start: usize = 0;
    let ghost te = trim_end(s@);
    assert(te.skip(0) =~= te);
    while start < end && whitespace(s[start])
        invariant
            start <= end <= s@.len(),
            te == s@.take(end as int),
            trim_start(te.skip(start as int)) == trim(s@),
        decreases end - start,
    {
        assert(te.skip(start as int).drop_first() =~= te.skip(start + 1));
        start += 1;
    }
    let mut t: Vec<char> = Vec::new();
    let mut i = start;
    while i < end
        invariant
            start <= i <= end <= s@.len(),
            t@ == s@.subrange(start as int, i as int),
        decreases end - i,
    {
        t.push(s[i]);
        assert(t@ =~= s@.subrange(start as int, i + 1));
        i += 1;
    }
    assert(t@ =~= te.skip(start as int));
    proof {
        let rest = te.skip(start as int);
        if rest.len() > 0 {
            assert(rest[0] == s@[start as int]);
        }
    }
    t
}

/// Whether `s` begins with `pat`.
pub fn begins_with(s: &Vec<char>, pat: &[char]) -> (res: bool)
    ensures
        res == starts_with(s@, pat@),
{
    if pat.len() > s.len() {
        return false;
    }
    let mut i: usize = 0;
    while i < pat.len()
        invariant
            i <= pat@.len() <= s@.len(),
            forall|j: int| 0 <= j < i ==> s@[j] == pat@[j],
        decreases pat@.len() - i,
    {
        if s[i] != pat[i] {
            assert(s@.take(pat@.len() as int)[i as int] != pat@[i as int]);
            return false;
        }
        i += 1;
    }
    assert(s@.take(pat@.len() as int) =~= pat@);
    true
}

/// Whether `pat` occurs somewhere in `s`.
pub fn holds_run(s: &Vec<char>, pat: &[char]) -> (res: bool)
    ensures
        res == contains_run(s@, pat@),
{
    if pat.len() == 0 {
        assert(s@.subrange(0, 0) =~= pat@);
        assert(run_at(s@, pat@, 0));
        return true;
    }
    if pat.len() > s.len() {
        return false;
    }
    let mut i: usize = 0;
    while i <= s.len() - pat.len()
        invariant
            pat@.len() >= 1,
            pat@.len() <= s@.len(),
            i <= s@.len() - pat@.len() + 1,
            forall|k: int| 0 <= k < i ==> !#[trigger] run_at(s@, pat@, k),
        decreases s@.len() - i,
    {
        let mut j: usize = 0;
        let mut same = true;
        while j < pat.len()
            invariant
                pat@.len() <= s@.len(),
                s@.len() <= usize::MAX,
                i <= s@.len() - pat@.len(),
                j <= pat@.len(),
                same == forall|q: int| 0 <= q < j ==> s@[i + q] == pat@[q],
            decreases pat@.len() - j,
        {
            if s[i + j] != pat[j] {
                same = false;
            }
            j += 1;
        }
        if same {
            assert(s@.subrange(i as int, i + pat@.len()) =~= pat@);
            assert(run_at(s@, pat@, i as int));
            return true;
        }
        proof {
            let k = choose|q: int| 0 <= q < pat@.len() && s@[i + q] != pat@[q];
            assert(s@.subrange(i as int, i + pat@.len())[k] != pat@[k]);
        }
        i += 1;
    }
    assert forall|k: int| !#[trigger] run_at(s@, pat@, k) by {
        if 0 <= k && k + pat@.len() <= s@.len() {
            assert(k < i);
        }
    }
    false
}

/// The digit character for `d` (0 to 9).
pub open spec fn digit_char(d: nat) -> char {
    (48 + d) as char
}

/// The decimal digits of `n` as `{}` prints an unsigned integer: no sign
/// and no leading zeros.
pub open spec fn decimal(n: nat) -> Seq<char>
    decreases n,
{
    if n < 10 {
        seq![digit_char(n)]
    } else {
        decimal(n / 10).push(digit_char(n % 10))
    }
}

/// What `decimal` prints is a nonempty run of digits, starting and ending
/// with a digit, with value `n`.
pub proof fn lemma_decimal(n: nat)
    ensures
        decimal(n).len() > 0,
        forall|i: int| 0 <= i < decimal(n).len() ==> is_digit(#[trigger] decimal(n)[i]),
        digits_value(decimal(n)) == n,
    decreases n,
{
    if n < 10 {
        let c = digit_char(n);
        assert(c as int == 48 + n);
        assert(decimal(n) =~= seq![c]);
        assert(decimal(n).drop_last() =~= Seq::<char>::empty());
        assert(decimal(n).last() == c);
        assert(digits_value(decimal(n)) == digits_value(Seq::<char>::empty()) * 10 + (c as int
            - '0' as int));
    } else {
        lemma_decimal(n / 10);
        let d = decimal(n / 10);
        let c = digit_char(n % 10);
        assert(c as int == 48 + n % 10);
        assert(decimal(n) == d.push(c));
        assert(decimal(n).drop_last() =~= d);
        assert(decimal(n).last() == c);
        assert forall|i: int| 0 <= i < decimal(n).len() implies is_digit(#[trigger] decimal(n)[i]) by {
            if i < d.len() {
                assert(decimal(n)[i] == d[i]);
            }
        }
        assert(digits_value(decimal(n)) == digits_value(d) * 10 + (c as int - '0' as int));
        assert(n == (n / 10) * 10 + n % 10);
    }
}

/// A white-space character added at the end makes no new word.
pub proof fn lemma_words_push_ws(s: Seq<char>, c: char)
    requires
        is_ws(c),
    ensures
        words(s.push(c)) == words(s),
{
    assert(s.push(c).drop_last() =~= s);
}

/// A run without white space added after white space (or at the start)
/// becomes one more word.
pub proof fn lemma_words_append_word(s: Seq<char>, w: Seq<char>)
    requires
        s.len() == 0 || is_ws(s.last()),
        w.len() > 0,
        forall|i: int| 0 <= i < w.len() ==> !is_ws(#[trigger] w[i]),
    ensures
        words(s + w) == words(s).push(w),
    decreases w.len(),
{
    let wp = w.drop_last();
    let ch = w.last();
    assert(!is_ws(w[w.len() - 1]));
    assert((s + w).drop_last() =~= s + wp);
    assert((s + w).last() == ch);
    if wp.len() == 0 {
        assert(s + wp =~= s);
        if s.len() > 0 {
            assert((s + w)[(s + w).len() - 2] == s.last());
        }
        assert(w =~= seq![ch]);
    } else {
        assert forall|i: int| 0 <= i < wp.len() implies !is_ws(#[trigger] wp[i]) by {
            assert(wp[i] == w[i]);
        }
        lemma_words_append_word(s, wp);
        assert((s + w)[(s + w).len() - 2] == w[w.len() - 2]);
        assert(words(s).push(wp).drop_last() =~= words(s));
        assert(words(s).push(wp).last().push(ch) =~= w);
    }
}

} // verus!
