//! Character-level helpers shared by both programs: white space, word counts,
//! decimal text, lexicographic order and substring search.
use vstd::prelude::*;
use vstd::string::StrSliceExecFns;
use vstd::string::StringExecFns;

verus! {

/// Unicode `White_Space` code points, which is what `char::is_whitespace`
/// and `str::split_whitespace` separate words by.
pub open spec fn is_white_space(c: char) -> bool {
    let u = c as u32;
    ||| 0x09 <= u <= 0x0D
    ||| u == 0x20
    ||| u == 0x85
    ||| u == 0xA0
    ||| u == 0x1680
    ||| 0x2000 <= u <= 0x200A
    ||| u == 0x2028
    ||| u == 0x2029
    ||| u == 0x202F
    ||| u == 0x205F
    ||| u == 0x3000
}

/// Whether `c` is white space.
pub fn char_is_white_space(c: char) -> (b: bool)
    ensures
        b == is_white_space(c),
{
    let u = c as u32;
    (0x09 <= u && u <= 0x0D) || u == 0x20 || u == 0x85 || u == 0xA0 || u == 0x1680 || (0x2000
        <= u && u <= 0x200A) || u == 0x2028 || u == 0x2029 || u == 0x202F || u == 0x205F || u
        == 0x3000
}

/// Whether position `i` of `s` starts a word: a character that is not white
/// space, preceded by white space or by nothing.
pub open spec fn starts_word(s: Seq<char>, i: int) -> bool {
    &&& !is_white_space(s[i])
    &&& (i == 0 || is_white_space(s[i - 1]))
}

/// The number of maximal runs of non-white-space characters of `s`, that is,
/// the number of items that `split_whitespace` yields.
pub open spec fn word_count(s: Seq<char>) -> nat
    decreases s.len(),
{
    if s.len() == 0 {
        0
    } else {
        word_count(s.drop_last()) + if starts_word(s, s.len() - 1) {
            1nat
        } else {
            0nat
        }
    }
}

/// In ASCII, exactly space, tab, line feed, vertical tab, form feed and
/// carriage return are white space; every other ASCII character (letters,
/// digits, and punctuation such as '-') belongs to a word.
pub proof fn lemma_ascii_white_space(c: char)
    requires
        (c as u32) < 0x80,
    ensures
        is_white_space(c) <==> (c == ' ' || c == '\t' || c == '\n' || c == '\x0B' || c == '\x0C'
            || c == '\r'),
{
}

/// Beyond ASCII, the Latin-1 characters that are white space are exactly the
/// next line (U+0085) and the no-break space (U+00A0), the ideographic space
/// (U+3000) is the last white-space code point, and every letter of the
/// scripts between the spaces (such as 'é', 'ñ', Greek and Cyrillic, U+00C0
/// to U+04FF) belongs to a word.
pub proof fn lemma_white_space_beyond_ascii(c: char)
    ensures
        0x80 <= (c as u32) <= 0xFF ==> (is_white_space(c) <==> ((c as u32) == 0x85 || (c as u32)
            == 0xA0)),
        (c as u32) == 0x3000 ==> is_white_space(c),
        (c as u32) > 0x3000 ==> !is_white_space(c),
        0xC0 <= (c as u32) <= 0x4FF ==> !is_white_space(c),
{
}

/// A non-empty text made of printable ASCII characters other than space
/// (letters, digits, '-', '.', ...) is one word.
pub proof fn lemma_printable_ascii_is_one_word(s: Seq<char>)
    requires
        s.len() > 0,
        forall|i: int| 0 <= i < s.len() ==> 0x21 <= (#[trigger] s[i] as u32) <= 0x7E,
    ensures
        word_count(s) == 1,
    decreases s.len(),
{
    let n = s.len() as int;
    assert(0x21 <= (s[n - 1] as u32) <= 0x7E);
    assert(!is_white_space(s[n - 1]));
    assert(word_count(s) == word_count(s.drop_last()) + if starts_word(s, n - 1) {
        1nat
    } else {
        0nat
    });
    if n == 1 {
        assert(s.drop_last() =~= Seq::<char>::empty());
        assert(word_count(s.drop_last()) == 0);
        assert(starts_word(s, 0));
    } else {
        let t = s.drop_last();
        assert forall|i: int| 0 <= i < t.len() implies 0x21 <= (#[trigger] t[i] as u32) <= 0x7E by {
            assert(t[i] == s[i]);
        }
        lemma_printable_ascii_is_one_word(t);
        assert(0x21 <= (s[n - 2] as u32) <= 0x7E);
        assert(!is_white_space(s[n - 2]));
        assert(!starts_word(s, n - 1));
    }
}

proof fn lemma_word_count_after_space(a: Seq<char>, b: Seq<char>)
    ensures
        word_count(a.push(' ') + b) == word_count(a) + word_count(b),
    decreases b.len(),
{
    let t = a.push(' ');
    if b.len() == 0 {
        assert(t + b =~= t);
        assert(t.drop_last() =~= a);
    } else {
        lemma_word_count_after_space(a, b.drop_last());
        let u = t + b;
        assert(u.drop_last() =~= t + b.drop_last());
        assert(u.last() == b.last());
        if b.len() == 1 {
            assert(u[u.len() - 2] == ' ');
            assert(b.drop_last() =~= Seq::<char>::empty());
            assert(t + b.drop_last() =~= t);
            assert(t.drop_last() =~= a);
        } else {
            assert(u[u.len() - 2] == b[b.len() - 2]);
        }
    }
}

/// Words do not run across a space: a text joined to another by a space has
/// the words of both.
pub proof fn lemma_word_count_join(a: Seq<char>, b: Seq<char>)
    ensures
        word_count(a + seq![' '] + b) == word_count(a) + word_count(b),
{
    assert(a + seq![' '] + b =~= a.push(' ') + b);
    lemma_word_count_after_space(a, b);
}

/// Counts the white-space separated words of `text`.
pub fn count_words(text: &String) -> (n: usize)
    ensures
        n == word_count(text@),
{
    let chars = chars_of(text);
    let mut n: usize = 0;
    let mut prev_white = true;
    let mut i: usize = 0;
    while i < chars.len()
        invariant
            chars@ == text@,
            i <= chars.len(),
            n == word_count(text@.take(i as int)),
            prev_white == (i == 0 || is_white_space(text@[i - 1])),
            n <= i,
        decreases chars.len() - i,
    {
        let c = chars[i];
        let white = char_is_white_space(c);
        proof {
            assert(text@.take(i + 1).drop_last() =~= text@.take(i as int));
        }
        if !white && prev_white {
            n = n + 1;
        }
        prev_white = white;
        i = i + 1;
    }
    proof {
        assert(text@.take(i as int) =~= text@);
    }
    n
}

/// The ASCII digit of a number below ten.
pub open spec fn digit_char(d: nat) -> char {
    (48 + d) as char
}

/// The decimal notation of `n`, without sign or leading zeros.
pub open spec fn decimal(n: nat) -> Seq<char>
    decreases n,
{
    if n < 10 {
        seq![digit_char(n)]
    } else {
        decimal(n / 10).push(digit_char(n % 10))
    }
}

/// The last digit of a decimal notation is the number modulo ten.
pub proof fn lemma_decimal_last(n: nat)
    ensures
        decimal(n).len() >= 1,
        decimal(n).last() == digit_char(n % 10),
    decreases n,
{
    if n >= 10 {
        lemma_decimal_last(n / 10);
    }
}

/// A decimal notation is made of digits whose value is the number.
pub proof fn lemma_decimal_digits(n: nat)
    ensures
        decimal(n).len() >= 1,
        all_digits(decimal(n)),
        digits_value(decimal(n)) == n,
    decreases n,
{
    assert((digit_char(n % 10) as u32) == 48 + n % 10);
    if n < 10 {
        assert(decimal(n).drop_last() =~= Seq::<char>::empty());
        assert(digits_value(Seq::<char>::empty()) == 0);
        assert(decimal(n).last() == digit_char(n));
        assert(digits_value(decimal(n)) == digits_value(decimal(n).drop_last()) * 10 + n);
    } else {
        lemma_decimal_digits(n / 10);
        let d = decimal(n);
        assert(d.drop_last() =~= decimal(n / 10));
        assert((n / 10) * 10 + n % 10 == n) by (nonlinear_arith);
        assert(d.last() == digit_char(n % 10));
        assert(digits_value(d) == digits_value(d.drop_last()) * 10 + n % 10);
        assert forall|i: int| 0 <= i < d.len() implies '0' <= #[trigger] d[i] <= '9' by {
            if i < d.len() - 1 {
                assert(d[i] == decimal(n / 10)[i]);
            }
        }
    }
}

/// An id written in decimal reads back as itself: what `usize_to_string`
/// writes, `parse_usize` reads.
pub proof fn lemma_parse_decimal(n: usize)
    ensures
        spec_parse_usize(decimal(n as nat)) == Some(n),
{
    lemma_decimal_digits(n as nat);
    let d = decimal(n as nat);
    assert('0' <= d[0] <= '9');
}

/// The one-character text of a digit.
fn digit_text(d: usize) -> (t: &'static str)
    requires
        d < 10,
    ensures
        t@ == seq![digit_char(d as nat)],
{
    match d {
        0 => {
            proof {
                reveal_strlit("0");
            }
            "0"
        },
        1 => {
            proof {
                reveal_strlit("1");
            }
            "1"
        },
        2 => {
            proof {
                reveal_strlit("2");
            }
            "2"
        },
        3 => {
            proof {
                reveal_strlit("3");
            }
            "3"
        },
        4 => {
            proof {
                reveal_strlit("4");
            }
            "4"
        },
        5 => {
            proof {
                reveal_strlit("5");
            }
            "5"
        },
        6 => {
            proof {
                reveal_strlit("6");
            }
            "6"
        },
        7 => {
            proof {
                reveal_strlit("7");
            }
            "7"
        },
        8 => {
            proof {
                reveal_strlit("8");
            }
            "8"
        },
        _ => {
            proof {
                reveal_strlit("9");
            }
            "9"
        },
    }
}

/// The decimal notation of `n`, as `usize::to_string` writes it.
pub fn usize_to_string(n: usize) -> (s: String)
    ensures
        s@ == decimal(n as nat),
    decreases n,
{
    if n < 10 {
        String::from_str(digit_text(n))
    } else {
        let mut s = usize_to_string(n / 10);
        s.append(digit_text(n % 10));
        s
    }
}

/// The value of a string of ASCII decimal digits.
pub open spec fn digits_value(s: Seq<char>) -> nat
    decreases s.len(),
{
    if s.len() == 0 {
        0
    } else {
        digits_value(s.drop_last()) * 10 + ((s.last() as u32) - 48) as nat
    }
}

/// Whether every character of `s` is an ASCII decimal digit.
pub open spec fn all_digits(s: Seq<char>) -> bool {
    forall|i: int| 0 <= i < s.len() ==> '0' <= #[trigger] s[i] <= '9'
}

/// What `str::parse::<usize>` accepts: an optional `+` followed by at least
/// one ASCII digit, whose value fits in a `usize`; `None` for anything else.
pub open spec fn spec_parse_usize(s: Seq<char>) -> Option<usize> {
    let body = if s.len() > 0 && s[0] == '+' {
        s.drop_first()
    } else {
        s
    };
    if body.len() > 0 && all_digits(body) && digits_value(body) <= usize::MAX {
        Some(digits_value(body) as usize)
    } else {
        None
    }
}

/// A longer run of digits is worth at least as much as its prefix.
proof fn lemma_digits_value_prefix(s: Seq<char>, i: int)
    requires
        0 <= i <= s.len(),
        all_digits(s),
    ensures
        digits_value(s.take(i)) <= digits_value(s),
    decreases s.len() - i,
{
    if i < s.len() {
        lemma_digits_value_prefix(s, i + 1);
        let t = s.take(i + 1);
        assert(t.drop_last() =~= s.take(i));
        assert(t.last() == s[i]);
        assert('0' <= t.last() <= '9');
        assert(digits_value(t) == digits_value(s.take(i)) * 10 + ((t.last() as u32) - 48) as nat);
    } else {
        assert(s.take(i) =~= s);
    }
}

/// Reads a number as `str::parse::<usize>` does, the error dropped: an
/// optional `+` and at least one ASCII digit, whose value fits in a `usize`.
#[verifier::spinoff_prover]
pub fn parse_usize(s: &str) -> (r: Option<usize>)
    ensures
        r == spec_parse_usize(s@),
{
    let owned = s.to_owned();
    let chars = chars_of(&owned);
    let start: usize = if chars.len() > 0 && chars[0] == '+' {
        1
    } else {
        0
    };
    let ghost body = s@.skip(start as int);
    proof {
        if start == 1 {
            assert(body =~= s@.drop_first());
        } else {
            assert(body =~= s@);
        }
    }
    if start == chars.len() {
        return None;
    }
    let mut value: usize = 0;
    let mut i: usize = start;
    proof {
        assert(body.take(0) =~= Seq::<char>::empty());
    }
    while i < chars.len()
        invariant
            chars@ == s@,
            start <= i <= chars.len(),
            body == s@.skip(start as int),
            body == (if s@.len() > 0 && s@[0] == '+' { s@.drop_first() } else { s@ }),
            body.len() > 0,
            all_digits(body.take(i - start)),
            value == digits_value(body.take(i - start)),
        decreases chars.len() - i,
    {
        let c = chars[i];
        let ghost t = body.take(i - start + 1);
        proof {
            assert(t.drop_last() =~= body.take(i - start));
            assert(t.last() == c);
        }
        if c < '0' || c > '9' {
            proof {
                assert(chars@[i as int] == c);
                assert(body[i - start] == c);
                assert(!all_digits(body));
            }
            return None;
        }
        let d = (c as u32 - 48) as usize;
        let next = match value.checked_mul(10) {
            Some(v) => v.checked_add(d),
            None => None,
        };
        match next {
            Some(v) => {
                value = v;
            },
            None => {
                proof {
                    assert(chars@[i as int] == c);
                    assert(digits_value(t) == value * 10 + d);
                    assert(digits_value(t) > usize::MAX);
                    if all_digits(body) {
                        lemma_digits_value_prefix(body, i - start + 1);
                    }
                }
                return None;
            },
        }
        proof {
            assert(all_digits(t)) by {
                assert forall|k: int| 0 <= k < t.len() implies '0' <= #[trigger] t[k] <= '9' by {
                    if k < t.len() - 1 {
                        assert(t[k] == body.take(i - start)[k]);
                    }
                }
            }
        }
        i = i + 1;
    }
    proof {
        assert(body.take(i - start) =~= body);
    }
    Some(value)
}

/// Strict lexicographic order on strings by code point, which is the order
/// of `String` (UTF-8 bytes compare as their code points do).
pub open spec fn seq_less(a: Seq<char>, b: Seq<char>) -> bool
    decreases a.len(),
{
    if b.len() == 0 {
        false
    } else if a.len() == 0 {
        true
    } else if a[0] != b[0] {
        (a[0] as int) < (b[0] as int)
    } else {
        seq_less(a.drop_first(), b.drop_first())
    }
}

/// Copies the characters of `s` into a vector.
pub fn chars_of(s: &String) -> (v: Vec<char>)
    ensures
        v@ == s@,
{
    let mut v: Vec<char> = Vec::new();
    for c in it: s.chars()
        invariant
            v@ == it.seq().take(it.index() as int),
    {
        v.push(c);
    }
    v
}

/// Whether `a` comes strictly before `b` in code-point order.
pub fn string_less(a: &String, b: &String) -> (r: bool)
    ensures
        r == seq_less(a@, b@),
{
    let av = chars_of(a);
    let bv = chars_of(b);
    let mut i: usize = 0;
    proof {
        assert(a@.skip(0) =~= a@);
        assert(b@.skip(0) =~= b@);
    }
    while i < av.len() && i < bv.len() && av[i] == bv[i]
        invariant
            av@ == a@,
            bv@ == b@,
            i <= av.len(),
            i <= bv.len(),
            seq_less(a@, b@) == seq_less(a@.skip(i as int), b@.skip(i as int)),
        decreases av.len() - i,
    {
        proof {
            let x = a@.skip(i as int);
            let y = b@.skip(i as int);
            assert(x.drop_first() =~= a@.skip(i + 1));
            assert(y.drop_first() =~= b@.skip(i + 1));
        }
        i = i + 1;
    }
    let ghost x = a@.skip(i as int);
    let ghost y = b@.skip(i as int);
    if i == bv.len() {
        false
    } else if i == av.len() {
        true
    } else {
        proof {
            assert(x[0] == a@[i as int]);
            assert(y[0] == b@[i as int]);
        }
        av[i] < bv[i]
    }
}

/// Whether `pat` occurs in `s` at position `i`.
pub open spec fn occurs_at(s: Seq<char>, pat: Seq<char>, i: int) -> bool {
    0 <= i && i + pat.len() <= s.len() && s.subrange(i, i + pat.len()) == pat
}

/// Whether `pat` occurs anywhere in `s`.
pub open spec fn contains_seq(s: Seq<char>, pat: Seq<char>) -> bool {
    exists|i: int| occurs_at(s, pat, i)
}

/// Whether `pat` occurs in `s`, as `str::contains` with a string pattern.
pub fn string_contains(s: &String, pat: &str) -> (r: bool)
    ensures
        r == contains_seq(s@, pat@),
{
    let sv = chars_of(s);
    let pv = pat.to_owned();
    let pv = chars_of(&pv);
    if pv.len() > sv.len() {
        assert forall|i: int| !occurs_at(s@, pat@, i) by {}
        return false;
    }
    let last = sv.len() - pv.len();
    let mut i: usize = 0;
    while i <= last
        invariant
            sv@ == s@,
            pv@ == pat@,
            last == sv.len() - pv.len(),
            pv.len() <= sv.len(),
            i <= last + 1,
            forall|k: int| 0 <= k < i ==> !occurs_at(s@, pat@, k),
        decreases last + 1 - i,
    {
        let mut j: usize = 0;
        while j < pv.len() && sv[i + j] == pv[j]
            invariant
                sv@ == s@,
                pv@ == pat@,
                i <= last,
                last == sv.len() - pv.len(),
                j <= pv.len(),
                forall|m: int| 0 <= m < j ==> sv@[i + m] == pv@[m],
            decreases pv.len() - j,
        {
            j = j + 1;
        }
        if j == pv.len() {
            assert(s@.subrange(i as int, i + pat@.len()) =~= pat@);
            assert(occurs_at(s@, pat@, i as int));
            return true;
        }
        proof {
            assert(s@.subrange(i as int, i + pat@.len())[j as int] != pat@[j as int]);
        }
        i = i + 1;
    }
    proof {
        assert forall|k: int| !occurs_at(s@, pat@, k) by {
            if 0 <= k && k + pat@.len() <= s@.len() {
                assert(k < i);
            }
        }
    }
    false
}

} // verus!
