use vstd::prelude::*;
use vstd::string::*;

verus! {

// ---------------------------------------------------------------------------
// Characters
// ---------------------------------------------------------------------------

pub open spec fn is_digit(c: char) -> bool {
    '0' <= c && c <= '9'
}

pub open spec fn digit_of_char(c: char) -> int {
    c as int - '0' as int
}

pub open spec fn char_of_digit(d: int) -> char {
    (d + '0' as int) as char
}

/// The whitespace characters stripped from the edges of rule strings.
pub open spec fn is_space(c: char) -> bool {
    c == ' ' || c == '\t' || c == '\r' || c == '\n'
}

/// Whether every character of the (non-empty) token is a decimal digit.
pub open spec fn all_digits(s: Seq<char>) -> bool {
    forall|i: int| 0 <= i < s.len() ==> is_digit(#[trigger] s[i])
}

// ---------------------------------------------------------------------------
// Decimal numbers
// ---------------------------------------------------------------------------

/// The decimal digits of a non-negative number, most significant first.
pub open spec fn dec_chars(n: int) -> Seq<char>
    decreases n,
{
    if n < 10 {
        seq![char_of_digit(n)]
    } else {
        dec_chars(n / 10) + seq![char_of_digit(n % 10)]
    }
}

/// The value of a digit string, read most significant first.
pub open spec fn digits_val(s: Seq<char>) -> int
    decreases s.len(),
{
    if s.len() == 0 {
        0
    } else {
        digits_val(s.drop_last()) * 10 + digit_of_char(s.last())
    }
}

/// What parsing a token as an unsigned size yields: a value for a non-empty
/// all-digit token whose value fits, nothing otherwise.
pub open spec fn parse_usize_spec(s: Seq<char>) -> Option<usize> {
    if s.len() > 0 && all_digits(s) && digits_val(s) <= usize::MAX {
        Some(digits_val(s) as usize)
    } else {
        None
    }
}

/// Rendering a number and parsing it back gives the number again.
pub proof fn lemma_dec_chars_val(n: int)
    requires
        n >= 0,
    ensures
        all_digits(dec_chars(n)),
        dec_chars(n).len() >= 1,
        digits_val(dec_chars(n)) == n,
    decreases n,
{
    if n < 10 {
        let s = seq![char_of_digit(n)];
        assert(is_digit(s[0]));
        assert(s.drop_last() =~= Seq::<char>::empty());
        assert(digits_val(Seq::<char>::empty()) == 0);
        assert(s.last() == char_of_digit(n));
        assert(digits_val(s) == digits_val(s.drop_last()) * 10 + digit_of_char(s.last()));
    } else {
        lemma_dec_chars_val(n / 10);
        let hi = dec_chars(n / 10);
        let s = hi + seq![char_of_digit(n % 10)];
        assert(s.drop_last() =~= hi);
        assert(s.last() == char_of_digit(n % 10));
        assert(is_digit(s.last()));
        assert(forall|i: int| 0 <= i < s.len() ==> is_digit(#[trigger] s[i]));
        assert(digits_val(s) == digits_val(hi) * 10 + digit_of_char(char_of_digit(n % 10)));
        assert(digit_of_char(char_of_digit(n % 10)) == n % 10);
        assert((n / 10) * 10 + n % 10 == n) by {
            vstd::arithmetic::div_mod::lemma_fundamental_div_mod(n, 10);
        }
    }
}

/// The value of a digit string never falls when the string is extended.
pub proof fn lemma_digits_val_monotone(s: Seq<char>, i: int)
    requires
        0 <= i <= s.len(),
        all_digits(s),
    ensures
        0 <= digits_val(s.take(i)) <= digits_val(s),
    decreases s.len() - i,
{
    lemma_digits_val_nonneg(s.take(i));
    if i == s.len() {
        assert(s.take(i) =~= s);
    } else {
        lemma_digits_val_monotone(s, i + 1);
        let t = s.take(i + 1);
        assert(t.drop_last() =~= s.take(i));
        assert(t.last() == s[i]);
        assert(is_digit(s[i]));
        assert(digits_val(s.take(i + 1)) == digits_val(s.take(i)) * 10 + digit_of_char(s[i]));
        lemma_digits_val_nonneg(s.take(i));
    }
}

pub proof fn lemma_digits_val_nonneg(s: Seq<char>)
    requires
        all_digits(s),
    ensures
        digits_val(s) >= 0,
    decreases s.len(),
{
    if s.len() > 0 {
        assert(forall|i: int| 0 <= i < s.drop_last().len() ==> s.drop_last()[i] == s[i]);
        lemma_digits_val_nonneg(s.drop_last());
        assert(is_digit(s.last()));
    }
}

/// The character of one decimal digit.
pub fn digit_str(d: usize) -> (r: &'static str)
    requires
        d < 10,
    ensures
        r@ == seq![char_of_digit(d as int)],
{
    let r = match d {
        0 => "0",
        1 => "1",
        2 => "2",
        3 => "3",
        4 => "4",
        5 => "5",
        6 => "6",
        7 => "7",
        8 => "8",
        _ => "9",
    };
    proof {
        reveal_strlit("0");
        reveal_strlit("1");
        reveal_strlit("2");
        reveal_strlit("3");
        reveal_strlit("4");
        reveal_strlit("5");
        reveal_strlit("6");
        reveal_strlit("7");
        reveal_strlit("8");
        reveal_strlit("9");
        assert(r@ =~= seq![char_of_digit(d as int)]);
    }
    r
}

/// Append the decimal rendering of `n` to the string.
pub fn append_dec(s: &mut String, n: usize)
    ensures
        final(s)@ == old(s)@ + dec_chars(n as int),
    decreases n,
{
    if n < 10 {
        s.append(digit_str(n));
    } else {
        append_dec(s, n / 10);
        s.append(digit_str(n % 10));
        proof {
            assert((old(s)@ + dec_chars(n as int / 10)) + seq![char_of_digit(n as int % 10)]
                =~= old(s)@ + (dec_chars(n as int / 10) + seq![char_of_digit(n as int % 10)]));
        }
    }
}

/// Parse a token as an unsigned size: accepts exactly the non-empty strings
/// of decimal digits whose value fits.
pub fn parse_usize_chars(v: &Vec<char>) -> (r: Option<usize>)
    ensures
        r == parse_usize_spec(v@),
{
    if v.len() == 0 {
        return None;
    }
    let mut val: usize = 0;
    let mut i: usize = 0;
    proof {
        assert(v@.take(0) =~= Seq::<char>::empty());
    }
    while i < v.len()
        invariant
            0 <= i <= v@.len(),
            all_digits(v@.take(i as int)),
            val == digits_val(v@.take(i as int)),
        decreases v@.len() - i,
    {
        let c = v[i];
        if c < '0' || c > '9' {
            proof {
                assert(!is_digit(v@[i as int]));
            }
            return None;
        }
        let d = (c as u32 - '0' as u32) as usize;
        proof {
            assert(v@.take(i + 1).drop_last() =~= v@.take(i as int));
            assert(v@.take(i + 1).last() == v@[i as int]);
            assert(d == digit_of_char(v@[i as int]));
        }
        let scaled = match val.checked_mul(10) {
            Some(x) => x,
            None => {
                proof {
                    assert(all_digits(v@.take(i + 1)));
                    assert(digits_val(v@.take(i + 1)) > usize::MAX);
                    if v@.len() > 0 && all_digits(v@) && digits_val(v@) <= usize::MAX {
                        lemma_digits_val_monotone(v@, i + 1);
                        assert(false);
                    }
                }
                return None;
            },
        };
        let summed = match scaled.checked_add(d) {
            Some(x) => x,
            None => {
                proof {
                    assert(all_digits(v@.take(i + 1)));
                    assert(digits_val(v@.take(i + 1)) > usize::MAX);
                    if v@.len() > 0 && all_digits(v@) && digits_val(v@) <= usize::MAX {
                        lemma_digits_val_monotone(v@, i + 1);
                        assert(false);
                    }
                }
                return None;
            },
        };
        val = summed;
        i += 1;
    }
    proof {
        assert(v@.take(v@.len() as int) =~= v@);
    }
    Some(val)
}

// ---------------------------------------------------------------------------
// Joining and splitting on a separator
// ---------------------------------------------------------------------------

/// The parts joined with a single separator character between them.
pub open spec fn join_with(parts: Seq<Seq<char>>, sep: char) -> Seq<char>
    decreases parts.len(),
{
    if parts.len() == 0 {
        Seq::<char>::empty()
    } else if parts.len() == 1 {
        parts[0]
    } else {
        parts[0] + seq![sep] + join_with(parts.drop_first(), sep)
    }
}

/// The position of the first separator, or -1 when there is none.
pub open spec fn find_sep(s: Seq<char>, sep: char) -> int
    decreases s.len(),
{
    if s.len() == 0 {
        -1
    } else if s[0] == sep {
        0
    } else if find_sep(s.drop_first(), sep) < 0 {
        -1
    } else {
        find_sep(s.drop_first(), sep) + 1
    }
}

/// The parts of `s` between occurrences of the separator; always at least
/// one (possibly empty) part.
pub open spec fn split_by(s: Seq<char>, sep: char) -> Seq<Seq<char>>
    decreases s.len(),
{
    let k = find_sep(s, sep);
    if k < 0 || k >= s.len() {
        seq![s]
    } else {
        seq![s.take(k)] + split_by(s.skip(k + 1), sep)
    }
}

pub proof fn lemma_find_sep_ensures(s: Seq<char>, sep: char)
    ensures
        find_sep(s, sep) == -1 ==> (forall|i: int| 0 <= i < s.len() ==> s[i] != sep),
        find_sep(s, sep) >= 0 ==> 0 <= find_sep(s, sep) < s.len() && s[find_sep(s, sep)] == sep
            && (forall|i: int| 0 <= i < find_sep(s, sep) ==> s[i] != sep),
    decreases s.len(),
{
    if s.len() == 0 {
    } else if s[0] == sep {
    } else {
        lemma_find_sep_ensures(s.drop_first(), sep);
        let d = s.drop_first();
        if find_sep(s, sep) == -1 {
            assert forall|i: int| 0 <= i < s.len() implies s[i] != sep by {
                if i > 0 {
                    assert(d[i - 1] == s[i]);
                }
            }
        } else {
            let k = find_sep(s, sep);
            assert(k == find_sep(d, sep) + 1);
            assert(d[k - 1] == s[k]);
            assert forall|i: int| 0 <= i < k implies s[i] != sep by {
                if i > 0 {
                    assert(d[i - 1] == s[i]);
                }
            }
        }
    }
}

/// Where the first separator of `a + b` is, when `a` has no separator.
pub proof fn lemma_find_sep_concat(a: Seq<char>, b: Seq<char>, sep: char)
    requires
        forall|i: int| 0 <= i < a.len() ==> a[i] != sep,
    ensures
        find_sep(a + b, sep) == if find_sep(b, sep) < 0 {
            -1
        } else {
            a.len() + find_sep(b, sep)
        },
    decreases a.len(),
{
    lemma_find_sep_ensures(b, sep);
    if a.len() == 0 {
        assert(a + b =~= b);
    } else {
        assert(forall|i: int| 0 <= i < a.drop_first().len() ==> a.drop_first()[i] == a[i + 1]);
        lemma_find_sep_concat(a.drop_first(), b, sep);
        let s = a + b;
        assert(s[0] == a[0]);
        assert(s[0] != sep);
        assert(s.drop_first() =~= a.drop_first() + b);
    }
}

/// Splitting a joined string on the separator recovers the parts, as long
/// as no part holds the separator itself.
pub proof fn lemma_split_join(parts: Seq<Seq<char>>, sep: char)
    requires
        parts.len() >= 1,
        forall|p: int, i: int|
            #![trigger parts[p][i]]
            0 <= p < parts.len() && 0 <= i < parts[p].len() ==> parts[p][i] != sep,
    ensures
        split_by(join_with(parts, sep), sep) == parts,
    decreases parts.len(),
{
    let s = join_with(parts, sep);
    if parts.len() == 1 {
        assert(s == parts[0]);
        lemma_find_sep_ensures(s, sep);
        assert(find_sep(s, sep) == -1) by {
            if find_sep(s, sep) >= 0 {
                assert(s[find_sep(s, sep)] == sep);
            }
        }
        assert(split_by(s, sep) =~= seq![parts[0]]);
        assert(seq![parts[0]] =~= parts);
    } else {
        let rest = parts.drop_first();
        assert(forall|p: int, i: int|
            #![trigger rest[p][i]]
            0 <= p < rest.len() && 0 <= i < rest[p].len() ==> rest[p][i] != sep) by {
            assert(forall|p: int| 0 <= p < rest.len() ==> rest[p] == parts[p + 1]);
        }
        lemma_split_join(rest, sep);
        let tail = join_with(rest, sep);
        assert(s == parts[0] + seq![sep] + tail);
        lemma_find_sep_concat(parts[0], seq![sep] + tail, sep);
        assert((seq![sep] + tail)[0] == sep);
        assert(find_sep(seq![sep] + tail, sep) == 0);
        let k = find_sep(s, sep);
        assert(parts[0] + seq![sep] + tail =~= parts[0] + (seq![sep] + tail));
        assert(k == parts[0].len());
        assert(0 <= k < s.len());
        assert(s.take(k) =~= parts[0]);
        assert(s.skip(k + 1) =~= tail);
        assert(split_by(s, sep) =~= seq![parts[0]] + split_by(tail, sep));
        assert(seq![parts[0]] + rest =~= parts);
    }
}

/// Appending one more part to a join appends a separator and the part.
pub proof fn lemma_join_push(parts: Seq<Seq<char>>, p: Seq<char>, sep: char)
    ensures
        join_with(parts.push(p), sep) == if parts.len() == 0 {
            p
        } else {
            join_with(parts, sep) + seq![sep] + p
        },
    decreases parts.len(),
{
    if parts.len() == 0 {
        assert(parts.push(p)[0] == p);
    } else if parts.len() == 1 {
        assert(parts.push(p)[0] == parts[0]);
        assert(parts.push(p).drop_first() =~= seq![p]);
        assert(join_with(seq![p], sep) == seq![p][0]);
    } else {
        assert(parts.push(p)[0] == parts[0]);
        assert(parts.push(p).drop_first() =~= parts.drop_first().push(p));
        lemma_join_push(parts.drop_first(), p, sep);
        assert(parts[0] + seq![sep] + (join_with(parts.drop_first(), sep) + seq![sep] + p) =~= (
        parts[0] + seq![sep] + join_with(parts.drop_first(), sep)) + seq![sep] + p);
    }
}

/// Joining the concatenation of two non-empty part lists joins each and puts
/// one separator between them.
pub proof fn lemma_join_concat(a: Seq<Seq<char>>, b: Seq<Seq<char>>, sep: char)
    requires
        a.len() >= 1,
        b.len() >= 1,
    ensures
        join_with(a + b, sep) == join_with(a, sep) + seq![sep] + join_with(b, sep),
    decreases a.len(),
{
    if a.len() == 1 {
        assert((a + b)[0] == a[0]);
        assert((a + b).drop_first() =~= b);
        assert((a + b).len() >= 2);
        assert(join_with(a, sep) == a[0]);
    } else {
        assert((a + b)[0] == a[0]);
        assert((a + b).drop_first() =~= a.drop_first() + b);
        lemma_join_concat(a.drop_first(), b, sep);
        assert(a[0] + seq![sep] + (join_with(a.drop_first(), sep) + seq![sep] + join_with(b, sep))
            =~= (a[0] + seq![sep] + join_with(a.drop_first(), sep)) + seq![sep] + join_with(
            b,
            sep,
        ));
    }
}

/// The shape of a join of non-empty parts whose characters all satisfy `ok`:
/// it is non-empty, starts and ends with part characters, and every one of
/// its characters satisfies `ok` or is the separator.
pub proof fn lemma_join_chars(parts: Seq<Seq<char>>, sep: char, ok: spec_fn(char) -> bool)
    requires
        parts.len() >= 1,
        forall|p: int| 0 <= p < parts.len() ==> (#[trigger] parts[p]).len() >= 1,
        forall|p: int, i: int|
            #![trigger parts[p][i]]
            0 <= p < parts.len() && 0 <= i < parts[p].len() ==> ok(parts[p][i]),
    ensures
        join_with(parts, sep).len() >= 1,
        join_with(parts, sep)[0] == parts[0][0],
        join_with(parts, sep).last() == parts.last().last(),
        forall|i: int|
            0 <= i < join_with(parts, sep).len() ==> ok(#[trigger] join_with(parts, sep)[i])
                || join_with(parts, sep)[i] == sep,
    decreases parts.len(),
{
    let s = join_with(parts, sep);
    if parts.len() == 1 {
        assert(s == parts[0]);
    } else {
        let rest = parts.drop_first();
        assert(forall|p: int| 0 <= p < rest.len() ==> rest[p] == parts[p + 1]);
        assert forall|p: int, i: int|
            #![trigger rest[p][i]]
            0 <= p < rest.len() && 0 <= i < rest[p].len() implies ok(rest[p][i]) by {
            assert(rest[p] == parts[p + 1]);
        }
        lemma_join_chars(rest, sep, ok);
        let tail = join_with(rest, sep);
        assert(s == parts[0] + seq![sep] + tail);
        assert(s[0] == parts[0][0]);
        assert(s.last() == tail.last());
        assert(rest.last() == parts.last());
        assert forall|i: int| 0 <= i < s.len() implies ok(s[i]) || s[i] == sep by {
            if i < parts[0].len() {
                assert(s[i] == parts[0][i]);
            } else if i == parts[0].len() {
                assert(s[i] == sep);
            } else {
                assert(s[i] == tail[i - parts[0].len() - 1]);
            }
        }
    }
}

/// The total length of a list of parts.
pub open spec fn parts_len_total(ps: Seq<Seq<char>>) -> int
    decreases ps.len(),
{
    if ps.len() == 0 {
        0
    } else {
        ps[0].len() + parts_len_total(ps.drop_first())
    }
}

/// Splitting never yields more characters than the string holds.
pub proof fn lemma_split_parts_len(s: Seq<char>, sep: char)
    ensures
        parts_len_total(split_by(s, sep)) <= s.len(),
    decreases s.len(),
{
    let k = find_sep(s, sep);
    lemma_find_sep_ensures(s, sep);
    if k < 0 || k >= s.len() {
        assert(split_by(s, sep) == seq![s]);
        assert(seq![s].drop_first() =~= Seq::<Seq<char>>::empty());
        assert(parts_len_total(seq![s]) == s.len() + parts_len_total(
            Seq::<Seq<char>>::empty(),
        ));
    } else {
        lemma_split_parts_len(s.skip(k + 1), sep);
        let parts = seq![s.take(k)] + split_by(s.skip(k + 1), sep);
        assert(split_by(s, sep) == parts);
        assert(parts[0] == s.take(k));
        assert(parts.drop_first() =~= split_by(s.skip(k + 1), sep));
        assert(parts_len_total(parts) == parts[0].len() + parts_len_total(parts.drop_first()));
        assert(s.take(k).len() == k);
        assert(s.skip(k + 1).len() == s.len() - k - 1);
    }
}

/// The characters of a string, in order.
pub fn chars_of(s: &str) -> (r: Vec<char>)
    ensures
        r@ == s@,
{
    let n = s.unicode_len();
    let mut v: Vec<char> = Vec::new();
    let mut i: usize = 0;
    while i < n
        invariant
            0 <= i <= n,
            n == s@.len(),
            v@.len() == i,
            forall|j: int| 0 <= j < i ==> v@[j] == s@[j],
        decreases n - i,
    {
        v.push(s.get_char(i));
        i += 1;
    }
    proof {
        assert(v@ =~= s@);
    }
    v
}

/// Whether two strings hold the same characters.
pub fn str_eq(a: &str, b: &str) -> (r: bool)
    ensures
        r == (a@ == b@),
{
    let na = a.unicode_len();
    let nb = b.unicode_len();
    if na != nb {
        return false;
    }
    let mut i: usize = 0;
    while i < na
        invariant
            0 <= i <= na,
            na == a@.len(),
            na == b@.len(),
            forall|j: int| 0 <= j < i ==> a@[j] == b@[j],
        decreases na - i,
    {
        if a.get_char(i) != b.get_char(i) {
            return false;
        }
        i += 1;
    }
    proof {
        assert(a@ =~= b@);
    }
    true
}

fn is_space_char(c: char) -> (r: bool)
    ensures
        r == is_space(c),
{
    c == ' ' || c == '\t' || c == '\r' || c == '\n'
}

/// What trimming whitespace from both edges of a string leaves.
pub open spec fn trim_spec(s: Seq<char>) -> Seq<char>
    decreases s.len(),
{
    if s.len() == 0 {
        s
    } else if is_space(s[0]) {
        trim_spec(s.drop_first())
    } else if is_space(s.last()) {
        trim_spec(s.drop_last())
    } else {
        s
    }
}

/// The characters left after stripping whitespace from both edges.
pub fn trim_chars(v: &Vec<char>) -> (r: Vec<char>)
    ensures
        r@ == trim_spec(v@),
{
    let mut lo: usize = 0;
    proof {
        assert(v@.skip(0) =~= v@);
    }
    while lo < v.len() && is_space_char(v[lo])
        invariant
            0 <= lo <= v@.len(),
            trim_spec(v@) == trim_spec(v@.skip(lo as int)),
        decreases v@.len() - lo,
    {
        proof {
            assert(v@.skip(lo as int)[0] == v@[lo as int]);
            assert(v@.skip(lo as int).drop_first() =~= v@.skip(lo + 1));
        }
        lo += 1;
    }
    let mut hi: usize = v.len();
    proof {
        assert(v@.skip(lo as int).take(v@.len() - lo as int) =~= v@.skip(lo as int));
    }
    while hi > lo && is_space_char(v[hi - 1])
        invariant
            0 <= lo <= hi <= v@.len(),
            lo < v@.len() ==> !is_space(v@[lo as int]),
            lo == hi || !is_space(v@[lo as int]),
            trim_spec(v@) == trim_spec(v@.skip(lo as int).take(hi - lo as int)),
        decreases hi,
    {
        proof {
            let t = v@.skip(lo as int).take(hi - lo as int);
            assert(t.len() > 0);
            assert(t[0] == v@[lo as int]);
            assert(t.last() == v@[hi - 1]);
            assert(is_space(t.last()));
            assert(t.drop_last() =~= v@.skip(lo as int).take(hi - 1 - lo as int));
        }
        hi -= 1;
    }
    let mut out: Vec<char> = Vec::new();
    let mut i: usize = lo;
    while i < hi
        invariant
            lo <= i <= hi <= v@.len(),
            out@.len() == i - lo,
            forall|j: int| 0 <= j < i - lo ==> out@[j] == v@[lo + j],
        decreases hi - i,
    {
        out.push(v[i]);
        i += 1;
    }
    proof {
        let t = v@.skip(lo as int).take(hi - lo as int);
        assert(out@ =~= t);
        if t.len() > 0 {
            assert(t[0] == v@[lo as int]);
            assert(!is_space(t[0]));
            assert(trim_spec(t) == t);
        } else {
            assert(trim_spec(t) == t);
        }
    }
    out
}

/// The parts of the character vector between occurrences of the separator.
pub fn split_chars(v: &Vec<char>, sep: char) -> (r: Vec<Vec<char>>)
    ensures
        r@.map_values(|p: Vec<char>| p@) == split_by(v@, sep),
{
    let mut done: Vec<Vec<char>> = Vec::new();
    let mut cur: Vec<char> = Vec::new();
    let mut i: usize = 0;
    proof {
        assert(cur@ + v@.skip(0) =~= v@);
    }
    while i < v.len()
        invariant
            0 <= i <= v@.len(),
            forall|j: int| 0 <= j < cur@.len() ==> cur@[j] != sep,
            split_by(v@, sep) == done@.map_values(|p: Vec<char>| p@) + split_by(
                cur@ + v@.skip(i as int),
                sep,
            ),
        decreases v@.len() - i,
    {
        let c = v[i];
        if c == sep {
            proof {
                let restv = v@.skip(i as int);
                assert(restv[0] == v@[i as int]);
                assert(cur@ + restv =~= cur@ + (seq![sep] + restv.drop_first()));
                lemma_find_sep_concat(cur@, seq![sep] + restv.drop_first(), sep);
                assert((seq![sep] + restv.drop_first())[0] == sep);
                assert(find_sep(seq![sep] + restv.drop_first(), sep) == 0);
                let s = cur@ + restv;
                let k = find_sep(s, sep);
                assert(k == cur@.len());
                assert(s.take(k) =~= cur@);
                assert(s.skip(k + 1) =~= restv.drop_first());
                assert(restv.drop_first() =~= v@.skip(i + 1));
                assert(split_by(s, sep) =~= seq![cur@] + split_by(v@.skip(i + 1), sep));
            }
            let ghost old_done = done@;
            done.push(cur);
            cur = Vec::new();
            proof {
                assert(done@.map_values(|p: Vec<char>| p@) =~= old_done.map_values(
                    |p: Vec<char>| p@,
                ) + seq![done@.last()@]);
                assert(cur@ + v@.skip(i + 1) =~= v@.skip(i + 1));
                assert(old_done.map_values(|p: Vec<char>| p@) + (seq![done@.last()@] + split_by(
                    v@.skip(i + 1),
                    sep,
                )) =~= (old_done.map_values(|p: Vec<char>| p@) + seq![done@.last()@]) + split_by(
                    v@.skip(i + 1),
                    sep,
                ));
            }
        } else {
            proof {
                let restv = v@.skip(i as int);
                assert(restv[0] == v@[i as int]);
                assert(cur@.push(c) + v@.skip(i + 1) =~= cur@ + restv);
            }
            cur.push(c);
        }
        i += 1;
    }
    proof {
        let restv = v@.skip(v@.len() as int);
        assert(restv =~= Seq::<char>::empty());
        assert(cur@ + restv =~= cur@);
        lemma_find_sep_ensures(cur@, sep);
        assert(find_sep(cur@, sep) == -1) by {
            if find_sep(cur@, sep) >= 0 {
                assert(cur@[find_sep(cur@, sep)] == sep);
            }
        }
        assert(split_by(cur@, sep) =~= seq![cur@]);
    }
    let ghost old_done = done@;
    done.push(cur);
    proof {
        assert(done@.map_values(|p: Vec<char>| p@) =~= old_done.map_values(|p: Vec<char>| p@)
            + seq![done@.last()@]);
    }
    done
}


/// A copy of a character vector.
pub fn copy_chars(v: &Vec<char>) -> (r: Vec<char>)
    ensures
        r@ == v@,
{
    let mut out: Vec<char> = Vec::new();
    let mut i: usize = 0;
    while i < v.len()
        invariant
            0 <= i <= v.len(),
            out@.len() == i,
            forall|j: int| 0 <= j < i ==> out@[j] == v@[j],
        decreases v.len() - i,
    {
        out.push(v[i]);
        i += 1;
    }
    proof {
        assert(out@ =~= v@);
    }
    out
}

} // verus!
