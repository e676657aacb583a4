//! Small verified text utilities: string equality, decimal numbers in both
//! directions, and whitespace tokenization. FEN handling and the engine
//! reply parser are built on these.

use vstd::prelude::*;

verus! {

/// Whether two string slices hold the same characters.
pub fn str_eq(a: &str, b: &str) -> (r: bool)
    ensures
        r == (a@ == b@),
{
    let la = a.unicode_len();
    let lb = b.unicode_len();
    if la != lb {
        proof {
            assert(a@ != b@);
        }
        return false;
    }
    let mut i: usize = 0;
    while i < la
        invariant
            i <= la,
            la == a@.len(),
            la == b@.len(),
            forall|j: int| 0 <= j < i ==> a@[j] == b@[j],
        decreases la - i,
    {
        if a.get_char(i) != b.get_char(i) {
            return false;
        }
        i += 1;
    }
    proof {
        assert(a@ =~= b@);
    }
    true
}

/// Whether `c` is a decimal digit.
pub open spec fn is_digit(c: char) -> bool {
    48 <= c as int <= 57
}

/// The value of a decimal digit.
pub open spec fn digit_val(c: char) -> int {
    c as int - 48
}

/// The digit character for a value in `0..10`.
pub open spec fn digit_char(d: int) -> char {
    if d == 0 {
        '0'
    } else if d == 1 {
        '1'
    } else if d == 2 {
        '2'
    } else if d == 3 {
        '3'
    } else if d == 4 {
        '4'
    } else if d == 5 {
        '5'
    } else if d == 6 {
        '6'
    } else if d == 7 {
        '7'
    } else if d == 8 {
        '8'
    } else {
        '9'
    }
}

/// Whether every character of `s` is a decimal digit.
pub open spec fn all_digits(s: Seq<char>) -> bool {
    forall|i: int| 0 <= i < s.len() ==> is_digit(#[trigger] s[i])
}

/// The number a digit string denotes.
pub open spec fn digits_val(s: Seq<char>) -> int
    decreases s.len(),
{
    if s.len() == 0 {
        0
    } else {
        digits_val(s.drop_last()) * 10 + digit_val(s.last())
    }
}

/// The decimal form of a nonnegative number.
pub open spec fn dec_seq(n: int) -> Seq<char>
    decreases n,
{
    if n <= 0 {
        seq!['0']
    } else if n < 10 {
        seq![digit_char(n)]
    } else {
        dec_seq(n / 10) + seq![digit_char(n % 10)]
    }
}

/// What `str::parse::<u32>` accepts: an optional plus sign, then at least
/// one digit, denoting a value that fits.
pub open spec fn spec_parse_u32(s: Seq<char>) -> Option<u32> {
    let body = if s.len() > 0 && s[0] == '+' {
        s.skip(1)
    } else {
        s
    };
    if body.len() > 0 && all_digits(body) && digits_val(body) <= u32::MAX {
        Some(digits_val(body) as u32)
    } else {
        None
    }
}

/// What `str::parse::<i32>` accepts: an optional sign, then at least one
/// digit, denoting a value that fits.
pub open spec fn spec_parse_i32(s: Seq<char>) -> Option<i32> {
    let neg = s.len() > 0 && s[0] == '-';
    let body = if s.len() > 0 && (s[0] == '+' || s[0] == '-') {
        s.skip(1)
    } else {
        s
    };
    if body.len() > 0 && all_digits(body) && (if neg {
        -digits_val(body) >= i32::MIN
    } else {
        digits_val(body) <= i32::MAX
    }) {
        if neg {
            Some((-digits_val(body)) as i32)
        } else {
            Some(digits_val(body) as i32)
        }
    } else {
        None
    }
}

/// The value of a digit string grows with its length.
proof fn lemma_digits_val_bound(s: Seq<char>)
    requires
        all_digits(s),
    ensures
        digits_val(s) >= 0,
        s.len() > 0 ==> digits_val(s) >= digits_val(s.drop_last()),
    decreases s.len(),
{
    if s.len() > 0 {
        assert(all_digits(s.drop_last())) by {
            assert(forall|i: int|
                0 <= i < s.len() - 1 ==> s.drop_last()[i] == #[trigger] s[i]);
        }
        lemma_digits_val_bound(s.drop_last());
    }
}

/// Parses an unsigned decimal number exactly as `str::parse::<u32>` does.
pub fn parse_u32(s: &str) -> (r: Option<u32>)
    ensures
        r == spec_parse_u32(s@),
{
    let n = s.unicode_len();
    let mut i: usize = 0;
    if n > 0 && s.get_char(0) == '+' {
        i = 1;
    }
    let ghost body = if s@.len() > 0 && s@[0] == '+' {
        s@.skip(1)
    } else {
        s@
    };
    if i >= n {
        return None;
    }
    let start = i;
    let mut val: u32 = 0;
    while i < n
        invariant
            start <= i <= n,
            n == s@.len(),
            start == (if s@.len() > 0 && s@[0] == '+' {
                1int
            } else {
                0int
            }),
            body == s@.skip(start as int),
            start < n,
            all_digits(body.take(i - start)),
            val == digits_val(body.take(i - start)),
        decreases n - i,
    {
        let c = s.get_char(i);
        let cv = c as u32;
        if cv < 48 || cv > 57 {
            proof {
                assert(body[i - start] == s@[i as int]);
                assert(!is_digit(body[i - start]));
            }
            return None;
        }
        let d = cv - 48;
        if val > (u32::MAX - d) / 10 {
            proof {
                let p = body.take(i + 1 - start);
                assert(p.drop_last() =~= body.take(i - start));
                assert(p.last() == s@[i as int]);
                assert(digits_val(p) == val * 10 + d > u32::MAX);
                if all_digits(body) {
                    lemma_digits_val_prefix_mono(body, i + 1 - start);
                    assert(digits_val(body) > u32::MAX);
                }
                assert(spec_parse_u32(s@) is None) by {
                    let sb = if s@.len() > 0 && s@[0] == '+' {
                        s@.skip(1)
                    } else {
                        s@
                    };
                    assert(sb == body);
                    if all_digits(body) {
                        assert(digits_val(sb) > u32::MAX);
                    } else {
                        assert(!all_digits(sb));
                    }
                };
            }
            return None;
        }
        val = val * 10 + d;
        proof {
            let p = body.take(i + 1 - start);
            assert(p.drop_last() =~= body.take(i - start));
            assert(p.last() == s@[i as int]);
        }
        i += 1;
    }
    proof {
        assert(body.take(n - start) =~= body);
    }
    Some(val)
}

/// A digit prefix never denotes more than the whole string.
proof fn lemma_digits_val_prefix_mono(s: Seq<char>, k: int)
    requires
        0 <= k <= s.len(),
        all_digits(s),
    ensures
        digits_val(s.take(k)) <= digits_val(s),
    decreases s.len() - k,
{
    if k < s.len() {
        let t = s.take(k + 1);
        assert(t.drop_last() =~= s.take(k));
        assert(is_digit(t.last()));
        assert(all_digits(t)) by {
            assert(forall|i: int| 0 <= i < t.len() ==> t[i] == #[trigger] s[i]);
        }
        lemma_digits_val_bound(t);
        assert(digits_val(s.take(k)) <= digits_val(s.take(k + 1)));
        lemma_digits_val_prefix_mono(s, k + 1);
        assert(s.take(s.len() as int) =~= s);
    } else {
        assert(s.take(k) =~= s);
    }
}

/// Parses a signed decimal number exactly as `str::parse::<i32>` does.
pub fn parse_i32(s: &str) -> (r: Option<i32>)
    ensures
        r == spec_parse_i32(s@),
{
    let n = s.unicode_len();
    if n == 0 {
        return None;
    }
    let c0 = s.get_char(0);
    let neg = c0 == '-';
    let signed = c0 == '+' || c0 == '-';
    let start: usize = if signed {
        1
    } else {
        0
    };
    let ghost body = if signed {
        s@.skip(1)
    } else {
        s@
    };
    if start >= n {
        return None;
    }
    let mut i = start;
    let mut val: u64 = 0;
    while i < n
        invariant
            start <= i <= n,
            n == s@.len(),
            n > 0,
            start == (if signed {
                1int
            } else {
                0int
            }),
            signed == (s@[0] == '+' || s@[0] == '-'),
            neg == (s@[0] == '-'),
            body == s@.skip(start as int),
            start < n,
            all_digits(body.take(i - start)),
            val == digits_val(body.take(i - start)),
            val <= 0x8000_0000,
        decreases n - i,
    {
        let c = s.get_char(i);
        let cv = c as u32;
        if cv < 48 || cv > 57 {
            proof {
                assert(body[i - start] == s@[i as int]);
                assert(!is_digit(body[i - start]));
            }
            return None;
        }
        let d = (cv - 48) as u64;
        proof {
            let p = body.take(i + 1 - start);
            assert(p.drop_last() =~= body.take(i - start));
            assert(p.last() == s@[i as int]);
        }
        if val > (0x8000_0000u64 - d) / 10 {
            proof {
                assert(digits_val(body.take(i + 1 - start)) > 0x8000_0000);
                if all_digits(body) {
                    lemma_digits_val_prefix_mono(body, i + 1 - start);
                    assert(digits_val(body) > 0x8000_0000);
                }
                assert(spec_parse_i32(s@) is None) by {
                    let sb = if s@.len() > 0 && (s@[0] == '+' || s@[0] == '-') {
                        s@.skip(1)
                    } else {
                        s@
                    };
                    assert(sb == body);
                    if all_digits(body) {
                        assert(digits_val(sb) > 0x8000_0000);
                    } else {
                        assert(!all_digits(sb));
                    }
                };
            }
            return None;
        }
        val = val * 10 + d;
        i += 1;
    }
    proof {
        assert(body.take(n - start) =~= body);
    }
    if neg {
        Some((-(val as i64)) as i32)
    } else {
        if val > i32::MAX as u64 {
            proof {
                assert(digits_val(body) > i32::MAX);
            }
            None
        } else {
            Some(val as i32)
        }
    }
}

/// Concatenation of character sequences is associative.
pub proof fn lemma_cat3(a: Seq<char>, b: Seq<char>, c: Seq<char>)
    ensures
        (a + b) + c == a + (b + c),
{
    assert((a + b) + c =~= a + (b + c));
}

/// The decimal emission of a digit stack collected lowest first: the
/// digits in reverse order of collection.
pub open spec fn rev_digs(ds: Seq<u32>) -> Seq<char>
    decreases ds.len(),
{
    if ds.len() == 0 {
        Seq::empty()
    } else {
        seq![digit_char(ds.last() as int)] + rev_digs(ds.drop_last())
    }
}

/// Emitting a stack with one more digit at the bottom appends that digit's
/// character.
proof fn lemma_rev_digs_cons(x: u32, t: Seq<u32>)
    ensures
        rev_digs(seq![x] + t) == rev_digs(t) + seq![digit_char(x as int)],
    decreases t.len(),
{
    let s = seq![x] + t;
    if t.len() == 0 {
        assert(s =~= seq![x]);
        assert(s.drop_last() =~= Seq::<u32>::empty());
        assert(rev_digs(Seq::<u32>::empty()) == Seq::<char>::empty());
        assert(rev_digs(s) == seq![digit_char(x as int)] + Seq::<char>::empty());
        assert(seq![digit_char(x as int)] + Seq::<char>::empty() =~= Seq::<char>::empty() + seq![
            digit_char(x as int),
        ]);
        assert(Seq::<char>::empty() + seq![digit_char(x as int)] =~= rev_digs(t) + seq![
            digit_char(x as int),
        ]);
    } else {
        assert(s.last() == t.last());
        assert(s.drop_last() =~= seq![x] + t.drop_last());
        lemma_rev_digs_cons(x, t.drop_last());
        assert(rev_digs(s) == seq![digit_char(t.last() as int)] + (rev_digs(t.drop_last()) + seq![
            digit_char(x as int),
        ]));
        lemma_cat3(
            seq![digit_char(t.last() as int)],
            rev_digs(t.drop_last()),
            seq![digit_char(x as int)],
        );
    }
}

/// Appends the character of one decimal digit.
fn append_digit(s: &mut String, d: u32)
    requires
        d < 10,
    ensures
        final(s)@ == old(s)@ + seq![digit_char(d as int)],
{
    proof {
        reveal_strlit("0");
        reveal_strlit("1");
        reveal_strlit("2");
        reveal_strlit("3");
        reveal_strlit("4");
        reveal_strlit("5");
        reveal_strlit("6");
        reveal_strlit("7");
        reveal_strlit("8");
        reveal_strlit("9");
    }
    match d {
        0 => s.append("0"),
        1 => s.append("1"),
        2 => s.append("2"),
        3 => s.append("3"),
        4 => s.append("4"),
        5 => s.append("5"),
        6 => s.append("6"),
        7 => s.append("7"),
        8 => s.append("8"),
        _ => s.append("9"),
    }
    proof {
        assert(final(s)@ =~= old(s)@ + seq![digit_char(d as int)]);
    }
}

/// Appends the decimal form of `n`.
pub fn append_dec_u32(s: &mut String, n: u32)
    ensures
        final(s)@ == old(s)@ + dec_seq(n as int),
{
    if n == 0 {
        append_digit(s, 0);
        return;
    }
    let mut digs: Vec<u32> = Vec::new();
    let mut m = n;
    while m >= 10
        invariant
            dec_seq(n as int) == dec_seq(m as int) + rev_digs(digs@),
            m >= 1,
            forall|i: int| 0 <= i < digs@.len() ==> #[trigger] digs@[i] < 10,
        decreases m,
    {
        let d = m % 10;
        let ghost pre = digs@;
        digs.push(d);
        proof {
            assert(digs@.last() == d);
            assert(digs@.drop_last() =~= pre);
        }
        m = m / 10;
        proof {
            assert(dec_seq((10 * (m as int) + d) as int) == dec_seq(m as int) + seq![
                digit_char(d as int),
            ]);
            lemma_cat3(dec_seq(m as int), seq![digit_char(d as int)], rev_digs(pre));
            assert(rev_digs(digs@) == seq![digit_char(d as int)] + rev_digs(pre));
        }
    }
    let ghost pre = digs@;
    digs.push(m);
    proof {
        assert(digs@.last() == m);
        assert(digs@.drop_last() =~= pre);
        assert(dec_seq(m as int) == seq![digit_char(m as int)]);
        assert(rev_digs(digs@) == seq![digit_char(m as int)] + rev_digs(digs@.drop_last()));
        assert(dec_seq(n as int) == rev_digs(digs@)) by {
            lemma_cat3(
                seq![digit_char(m as int)],
                Seq::<char>::empty(),
                rev_digs(digs@.drop_last()),
            );
            assert(seq![digit_char(m as int)] + rev_digs(digs@.drop_last()) =~= dec_seq(m as int)
                + rev_digs(digs@.drop_last()));
        }
    }
    let mut k = digs.len();
    proof {
        assert(digs@.skip(k as int) =~= Seq::<u32>::empty());
    }
    while k > 0
        invariant
            k <= digs@.len(),
            dec_seq(n as int) == rev_digs(digs@),
            forall|i: int| 0 <= i < digs@.len() ==> #[trigger] digs@[i] < 10,
            s@ == old(s)@ + rev_digs(digs@.skip(k as int)),
        decreases k,
    {
        let d = digs[k - 1];
        append_digit(s, d);
        k = k - 1;
        proof {
            assert(digs@.skip(k as int) =~= seq![digs@[k as int]] + digs@.skip(k + 1));
            lemma_rev_digs_cons(digs@[k as int], digs@.skip(k + 1));
            lemma_cat3(old(s)@, rev_digs(digs@.skip(k + 1)), seq![digit_char(d as int)]);
        }
    }
    proof {
        assert(digs@.skip(0) =~= digs@);
    }
}


/// How often the character `c` occurs in `s`.
pub open spec fn countc(s: Seq<char>, c: char) -> int
    decreases s.len(),
{
    if s.len() == 0 {
        0
    } else {
        countc(s.drop_last(), c) + (if s.last() == c {
            1int
        } else {
            0
        })
    }
}

/// Counts the occurrences of `c` in the character range `a..b` of `s`.
pub fn count_char(s: &str, a: usize, b: usize, c: char) -> (r: u64)
    requires
        a <= b <= s@.len(),
    ensures
        r as int == countc(s@.subrange(a as int, b as int), c),
{
    let mut i = a;
    let mut cnt: u64 = 0;
    while i < b
        invariant
            a <= i <= b,
            b <= s@.len(),
            cnt as int == countc(s@.subrange(a as int, i as int), c),
            cnt <= i - a,
        decreases b - i,
    {
        proof {
            assert(s@.subrange(a as int, i as int + 1).drop_last() =~= s@.subrange(
                a as int,
                i as int,
            ));
            assert(s@.subrange(a as int, i as int + 1).last() == s@[i as int]);
        }
        if s.get_char(i) == c {
            cnt += 1;
        }
        i += 1;
    }
    cnt
}

/// Occurrence and membership agree: `c` occurs in `s` exactly when some
/// position holds it.
pub proof fn lemma_countc_contains(s: Seq<char>, c: char)
    ensures
        (countc(s, c) > 0) == s.contains(c),
        countc(s, c) >= 0,
    decreases s.len(),
{
    if s.len() == 0 {
    } else {
        lemma_countc_contains(s.drop_last(), c);
        if s.last() == c {
            assert(s[s.len() - 1] == c);
            assert(s.contains(c));
        } else {
            if s.drop_last().contains(c) {
                let k = choose|k: int| 0 <= k < s.len() - 1 && s.drop_last()[k] == c;
                assert(s[k] == c);
                assert(s.contains(c));
            }
            if s.contains(c) {
                let k = choose|k: int| 0 <= k < s.len() && s[k] == c;
                if k < s.len() - 1 {
                    assert(s.drop_last()[k] == c);
                    assert(s.drop_last().contains(c));
                }
            }
        }
    }
}

/// A number's decimal form denotes the number again: the counters a
/// position emits always parse back.
pub proof fn lemma_parse_dec(n: int)
    requires
        0 <= n <= u32::MAX,
    ensures
        spec_parse_u32(dec_seq(n)) == Some(n as u32),
    decreases n,
{
    lemma_dec_digits(n);
    assert(dec_seq(n)[0] != '+');
}

/// The decimal form of a number is nonempty, all digits, and denotes the
/// number.
proof fn lemma_dec_digits(n: int)
    requires
        0 <= n,
    ensures
        dec_seq(n).len() >= 1,
        all_digits(dec_seq(n)),
        digits_val(dec_seq(n)) == n,
    decreases n,
{
    if n < 10 {
        assert(dec_seq(n) =~= seq![digit_char(n)]);
        assert(is_digit(digit_char(n)));
        assert(digits_val(dec_seq(n)) == digits_val(dec_seq(n).drop_last()) * 10 + digit_val(
            dec_seq(n).last(),
        ));
        assert(dec_seq(n).drop_last() =~= Seq::<char>::empty());
    } else {
        lemma_dec_digits(n / 10);
        let s = dec_seq(n);
        assert(s == dec_seq(n / 10) + seq![digit_char(n % 10)]);
        assert(s.drop_last() =~= dec_seq(n / 10));
        assert(s.last() == digit_char(n % 10));
        assert(is_digit(digit_char(n % 10)));
        assert(digit_val(digit_char(n % 10)) == n % 10);
        assert forall|i: int| 0 <= i < s.len() implies is_digit(#[trigger] s[i]) by {
            if i < s.len() - 1 {
                assert(s[i] == dec_seq(n / 10)[i]);
            }
        }
        vstd::arithmetic::div_mod::lemma_fundamental_div_mod(n, 10);
    }
}

/// Whether `c` is ASCII whitespace, as `str::split_ascii_whitespace` sees
/// it.
pub open spec fn is_ws(c: char) -> bool {
    c == ' ' || c == '\t' || c == '\n' || c == '\r' || c == '\u{c}'
}

/// The whitespace-separated tokens of `s`, in order.
pub open spec fn tok_split(s: Seq<char>) -> Seq<Seq<char>>
    decreases s.len(),
{
    if s.len() == 0 {
        Seq::empty()
    } else if is_ws(s[0]) {
        tok_split(s.skip(1))
    } else {
        let r = tok_split(s.skip(1));
        if s.len() > 1 && !is_ws(s[1]) {
            seq![seq![s[0]] + r[0]] + r.skip(1)
        } else {
            seq![seq![s[0]]] + r
        }
    }
}

/// Runtime whitespace test.
pub fn is_ws_exec(c: char) -> (r: bool)
    ensures
        r == is_ws(c),
{
    c == ' ' || c == '\t' || c == '\n' || c == '\r' || c == '\u{c}'
}

/// The boundaries `(start, end)` of every whitespace-separated token of
/// `s`, so that token `k` is `s@.subrange(r[k].0, r[k].1)`.
pub fn tok_bounds(s: &str) -> (r: Vec<(usize, usize)>)
    ensures
        r@.len() == tok_split(s@).len(),
        forall|k: int|
            0 <= k < r@.len() ==> {
                &&& 0 <= #[trigger] r@[k].0 < r@[k].1 <= s@.len()
                &&& s@.subrange(r@[k].0 as int, r@[k].1 as int) == tok_split(s@)[k]
            },
{
    let n = s.unicode_len();
    let mut res: Vec<(usize, usize)> = Vec::new();
    let mut i: usize = 0;
    let mut cur_start: usize = 0;
    let mut in_tok = false;
    proof {
        assert(s@.skip(0) =~= s@);
    }
    while i < n
        invariant
            i <= n,
            n == s@.len(),
            in_tok ==> cur_start < i,
            in_tok ==> (forall|j: int| cur_start <= j < i ==> !is_ws(#[trigger] s@[j])),
            !in_tok && i > 0 ==> is_ws(s@[i - 1]),
            tok_split(s@) == res@.map(
                |k: int, b: (usize, usize)| s@.subrange(b.0 as int, b.1 as int),
            ) + (if in_tok {
                seq![s@.subrange(cur_start as int, i as int) + first_tok(s@.skip(i as int))]
                    + tok_split_rest(s@.skip(i as int))
            } else {
                tok_split(s@.skip(i as int))
            }),
            forall|k: int|
                0 <= k < res@.len() ==> (#[trigger] res@[k]).0 < res@[k].1 <= i,
        decreases n - i,
    {
        let ghost m = res@.map(|k: int, b: (usize, usize)| s@.subrange(b.0 as int, b.1 as int));
        let c = s.get_char(i);
        let w = is_ws_exec(c);
        proof {
            lemma_tok_split_step(s@, i as int);
        }
        if w {
            if in_tok {
                let ghost t = s@.subrange(cur_start as int, i as int);
                res.push((cur_start, i));
                proof {
                    assert(first_tok(s@.skip(i as int)) == Seq::<char>::empty());
                    assert(t + Seq::<char>::empty() =~= t);
                    assert(tok_split_rest(s@.skip(i as int)) == tok_split(s@.skip(i as int)));
                    assert(tok_split(s@.skip(i as int)) == tok_split(s@.skip(i as int + 1)));
                    let m2 = res@.map(
                        |k: int, b: (usize, usize)| s@.subrange(b.0 as int, b.1 as int),
                    );
                    assert(m2 =~= m.push(t));
                    assert(m.push(t) + tok_split(s@.skip(i as int + 1)) =~= m + (seq![t]
                        + tok_split(s@.skip(i as int + 1))));
                    assert(seq![t + first_tok(s@.skip(i as int))] =~= seq![t]);
                }
                in_tok = false;
            }
        } else {
            if !in_tok {
                cur_start = i;
                in_tok = true;
                proof {
                    assert(s@.subrange(i as int, i as int + 1) =~= seq![s@[i as int]]);
                    assert(s@.subrange(i as int, i as int + 1) + first_tok(s@.skip(i as int + 1))
                        =~= first_tok(s@.skip(i as int)));
                    assert(tok_split(s@.skip(i as int)) == seq![first_tok(s@.skip(i as int))]
                        + tok_split_rest(s@.skip(i as int + 1)));
                }
            } else {
                proof {
                    assert(s@.subrange(cur_start as int, i as int + 1) =~= s@.subrange(
                        cur_start as int,
                        i as int,
                    ) + seq![s@[i as int]]);
                    assert(s@.subrange(cur_start as int, i as int + 1) + first_tok(
                        s@.skip(i as int + 1),
                    ) =~= s@.subrange(cur_start as int, i as int) + (seq![s@[i as int]]
                        + first_tok(s@.skip(i as int + 1))));
                    assert(seq![s@[i as int]] + first_tok(s@.skip(i as int + 1)) == first_tok(
                        s@.skip(i as int),
                    ));
                }
            }
        }
        i += 1;
    }
    if in_tok {
        let ghost m = res@.map(|k: int, b: (usize, usize)| s@.subrange(b.0 as int, b.1 as int));
        let ghost t = s@.subrange(cur_start as int, n as int);
        res.push((cur_start, n));
        proof {
            assert(s@.skip(n as int) =~= Seq::<char>::empty());
            assert(first_tok(Seq::<char>::empty()) == Seq::<char>::empty());
            assert(tok_split_rest(Seq::<char>::empty()) == tok_split(Seq::<char>::empty()));
            assert(tok_split(Seq::<char>::empty()).len() == 0);
            assert(t + Seq::<char>::empty() =~= t);
            let m2 = res@.map(|k: int, b: (usize, usize)| s@.subrange(b.0 as int, b.1 as int));
            assert(m2 =~= m.push(t));
            assert(m.push(t) =~= m + seq![t]);
            assert(seq![t] + Seq::<Seq<char>>::empty() =~= seq![t]);
            assert(tok_split(s@) =~= m2);
        }
    } else {
        proof {
            assert(s@.skip(n as int) =~= Seq::<char>::empty());
            assert(tok_split(Seq::<char>::empty()).len() == 0);
            let m = res@.map(|k: int, b: (usize, usize)| s@.subrange(b.0 as int, b.1 as int));
            assert(tok_split(s@) =~= m);
        }
    }
    proof {
        let m = res@.map(|k: int, b: (usize, usize)| s@.subrange(b.0 as int, b.1 as int));
        assert(tok_split(s@) =~= m);
        assert forall|k: int| 0 <= k < res@.len() implies {
            &&& 0 <= #[trigger] res@[k].0 < res@[k].1 <= s@.len()
            &&& s@.subrange(res@[k].0 as int, res@[k].1 as int) == tok_split(s@)[k]
        } by {
            assert(m[k] == s@.subrange(res@[k].0 as int, res@[k].1 as int));
        }
    }
    res
}

/// The leading run of non-whitespace characters.
pub open spec fn first_tok(s: Seq<char>) -> Seq<char>
    decreases s.len(),
{
    if s.len() == 0 || is_ws(s[0]) {
        Seq::empty()
    } else {
        seq![s[0]] + first_tok(s.skip(1))
    }
}

/// The tokens after the leading run of non-whitespace characters.
pub open spec fn tok_split_rest(s: Seq<char>) -> Seq<Seq<char>>
    decreases s.len(),
{
    if s.len() == 0 || is_ws(s[0]) {
        tok_split(s)
    } else {
        tok_split_rest(s.skip(1))
    }
}

/// One step of the tokenizer: how the token structure of the suffix at `i`
/// relates to the suffix at `i + 1`.
proof fn lemma_tok_split_step(s: Seq<char>, i: int)
    requires
        0 <= i < s.len(),
    ensures
        is_ws(s[i]) ==> tok_split(s.skip(i)) == tok_split(s.skip(i + 1)),
        is_ws(s[i]) ==> first_tok(s.skip(i)) == Seq::<char>::empty(),
        is_ws(s[i]) ==> tok_split_rest(s.skip(i)) == tok_split(s.skip(i)),
        !is_ws(s[i]) ==> first_tok(s.skip(i)) == seq![s[i]] + first_tok(s.skip(i + 1)),
        !is_ws(s[i]) ==> tok_split_rest(s.skip(i)) == tok_split_rest_of(s, i + 1),
        !is_ws(s[i]) ==> tok_split(s.skip(i)) == seq![first_tok(s.skip(i))] + tok_split_rest_of(
            s,
            i + 1,
        ),
{
    let t = s.skip(i);
    assert(t.skip(1) =~= s.skip(i + 1));
    assert(t[0] == s[i]);
    if !is_ws(s[i]) {
        lemma_tok_first(s.skip(i + 1));
        if i + 1 < s.len() && !is_ws(s[i + 1]) {
            assert(tok_split(s.skip(i + 1)).len() > 0) by {
                lemma_tok_first(s.skip(i + 1));
            }
        }
    }
}

/// The tokens after the first when the text begins inside a token.
pub open spec fn tok_split_rest_of(s: Seq<char>, i: int) -> Seq<Seq<char>> {
    if 0 <= i <= s.len() {
        tok_split_rest(s.skip(i))
    } else {
        Seq::empty()
    }
}

/// When the text begins with a token character, the token list starts with
/// the leading run and continues with the rest.
proof fn lemma_tok_first(s: Seq<char>)
    ensures
        s.len() > 0 && !is_ws(s[0]) ==> tok_split(s) == seq![first_tok(s)] + tok_split_rest(s),
        s.len() > 0 && !is_ws(s[0]) ==> tok_split(s).len() > 0 && tok_split(s)[0] == first_tok(s),
        (s.len() == 0 || is_ws(s[0])) ==> first_tok(s) == Seq::<char>::empty() && tok_split_rest(s)
            == tok_split(s),
    decreases s.len(),
{
    if s.len() > 0 && !is_ws(s[0]) {
        lemma_tok_first(s.skip(1));
        let r = tok_split(s.skip(1));
        if s.len() > 1 && !is_ws(s[1]) {
            assert(r[0] == first_tok(s.skip(1)));
            assert(seq![s[0]] + r[0] == first_tok(s));
            assert(r.skip(1) == (seq![first_tok(s.skip(1))] + tok_split_rest(s.skip(1))).skip(1));
            assert((seq![first_tok(s.skip(1))] + tok_split_rest(s.skip(1))).skip(1) =~= tok_split_rest(
                s.skip(1),
            ));
            assert(tok_split_rest(s) == tok_split_rest(s.skip(1)));
        } else {
            assert(first_tok(s.skip(1)) =~= Seq::<char>::empty());
            assert(first_tok(s) =~= seq![s[0]]);
            assert(tok_split_rest(s) == tok_split_rest(s.skip(1)));
            assert(tok_split_rest(s.skip(1)) == tok_split(s.skip(1)));
        }
    }
}

} // verus!
