//! Character-level string helpers shared by the rest of the library.
//!
//! Every helper works on `char` sequences and is specified by a spec
//! function that states the std behaviour it reproduces (`split`, `lines`,
//! `split_whitespace`, `trim`, decimal formatting and parsing).

use vstd::prelude::*;

verus! {

// ---------------------------------------------------------------------------
// Building strings
// ---------------------------------------------------------------------------

/// Appends one character to a `String` (std's `String::push`).
#[verifier::external_body]
pub(crate) fn push_char(s: &mut String, c: char)
    ensures
        final(s)@ == old(s)@.push(c),
{
    s.push(c);
}

/// The characters of a string slice, in order.
pub fn chars_of(s: &str) -> (r: Vec<char>)
    ensures
        r@ == s@,
{
    let mut r: Vec<char> = Vec::new();
    let n = s.unicode_len();
    let mut i: usize = 0;
    while i < n
        invariant
            n == s@.len(),
            i <= n,
            r@ == s@.subrange(0, i as int),
        decreases n - i,
    {
        let c = s.get_char(i);
        r.push(c);
        i = i + 1;
        proof {
            assert(r@ =~= s@.subrange(0, i as int));
        }
    }
    proof {
        assert(r@ =~= s@);
    }
    r
}

/// Builds a `String` holding exactly the given characters.
pub fn string_from_chars(cs: &Vec<char>) -> (r: String)
    ensures
        r@ == cs@,
{
    let mut r = String::new();
    append_chars(&mut r, cs);
    r
}

/// Appends the given characters to a `String`.
pub fn append_chars(r: &mut String, cs: &Vec<char>)
    ensures
        final(r)@ == old(r)@ + cs@,
{
    let ghost start = r@;
    let mut i: usize = 0;
    while i < cs.len()
        invariant
            i <= cs.len(),
            r@ == start + cs@.subrange(0, i as int),
        decreases cs.len() - i,
    {
        push_char(r, cs[i]);
        i = i + 1;
        proof {
            assert(r@ =~= start + cs@.subrange(0, i as int));
        }
    }
    proof {
        assert(cs@.subrange(0, cs@.len() as int) =~= cs@);
    }
}

/// Appends the characters of `src` to `dst`.
pub fn extend_chars(dst: &mut Vec<char>, src: &Vec<char>)
    ensures
        final(dst)@ == old(dst)@ + src@,
{
    let ghost start = dst@;
    let mut i: usize = 0;
    while i < src.len()
        invariant
            i <= src.len(),
            dst@ == start + src@.subrange(0, i as int),
        decreases src.len() - i,
    {
        dst.push(src[i]);
        i = i + 1;
        proof {
            assert(dst@ =~= start + src@.subrange(0, i as int));
        }
    }
    proof {
        assert(src@.subrange(0, src@.len() as int) =~= src@);
    }
}

/// A copy of a character vector.
pub fn copy_chars(src: &Vec<char>) -> (r: Vec<char>)
    ensures
        r@ == src@,
{
    let mut r: Vec<char> = Vec::new();
    extend_chars(&mut r, src);
    proof {
        assert(r@ =~= src@);
    }
    r
}

// ---------------------------------------------------------------------------
// Comparisons
// ---------------------------------------------------------------------------

/// Equality of two character sequences.
pub fn chars_eq(a: &Vec<char>, b: &Vec<char>) -> (r: bool)
    ensures
        r == (a@ == b@),
{
    if a.len() != b.len() {
        return false;
    }
    let mut i: usize = 0;
    while i < a.len()
        invariant
            a.len() == b.len(),
            i <= a.len(),
            forall|j: int| 0 <= j < i ==> a@[j] == b@[j],
        decreases a.len() - i,
    {
        if a[i] != b[i] {
            return false;
        }
        i = i + 1;
    }
    proof {
        assert(a@ =~= b@);
    }
    true
}

/// Equality of two string slices.
pub fn str_eq(a: &str, b: &str) -> (r: bool)
    ensures
        r == (a@ == b@),
{
    let ac = chars_of(a);
    let bc = chars_of(b);
    chars_eq(&ac, &bc)
}

/// `p` is a prefix of `s`.
pub open spec fn has_prefix(s: Seq<char>, p: Seq<char>) -> bool {
    p.len() <= s.len() && s.subrange(0, p.len() as int) == p
}

/// Whether `s` starts with `p` (std's `str::starts_with`).
pub fn starts_with(s: &Vec<char>, p: &Vec<char>) -> (r: bool)
    ensures
        r == has_prefix(s@, p@),
{
    if p.len() > s.len() {
        return false;
    }
    let mut i: usize = 0;
    while i < p.len()
        invariant
            p.len() <= s.len(),
            i <= p.len(),
            forall|j: int| 0 <= j < i ==> s@[j] == p@[j],
        decreases p.len() - i,
    {
        if s[i] != p[i] {
            proof {
                assert(s@.subrange(0, p.len() as int)[i as int] != p@[i as int]);
            }
            return false;
        }
        i = i + 1;
    }
    proof {
        assert(s@.subrange(0, p.len() as int) =~= p@);
    }
    true
}

/// `p` occurs in `s` starting at position `i`.
pub open spec fn occurs_at(s: Seq<char>, p: Seq<char>, i: int) -> bool {
    0 <= i && i + p.len() <= s.len() && s.subrange(i, i + p.len()) == p
}

/// `p` occurs somewhere in `s`.
pub open spec fn has_substring(s: Seq<char>, p: Seq<char>) -> bool {
    exists|i: int| occurs_at(s, p, i)
}

/// Whether `p` occurs in `s` (std's `str::contains` with a string pattern).
pub fn contains_chars(s: &Vec<char>, p: &Vec<char>) -> (r: bool)
    ensures
        r == has_substring(s@, p@),
{
    if p.len() > s.len() {
        proof {
            assert forall|i: int| !occurs_at(s@, p@, i) by {}
        }
        return false;
    }
    let last = s.len() - p.len();
    let mut i: usize = 0;
    while i <= last
        invariant
            p.len() <= s.len(),
            last == s.len() - p.len(),
            forall|k: int| 0 <= k < i ==> !occurs_at(s@, p@, k),
        decreases last + 1 - i,
    {
        let mut j: usize = 0;
        let mut ok = true;
        while j < p.len()
            invariant
                p.len() <= s.len(),
                i <= last,
                last == s.len() - p.len(),
                j <= p.len(),
                ok == (forall|m: int| 0 <= m < j ==> s@[i + m] == p@[m]),
            decreases p.len() - j,
        {
            if s[i + j] != p[j] {
                ok = false;
            }
            j = j + 1;
        }
        if ok {
            proof {
                assert(s@.subrange(i as int, i + p.len()) =~= p@);
                assert(occurs_at(s@, p@, i as int));
            }
            return true;
        }
        proof {
            let m = choose|m: int| 0 <= m < p.len() && s@[i + m] != p@[m];
            assert(s@.subrange(i as int, i + p.len())[m] != p@[m]);
        }
        i = i + 1;
    }
    proof {
        assert forall|k: int| !occurs_at(s@, p@, k) by {
            if 0 <= k && k + p.len() <= s.len() {
                assert(k < i);
            }
        }
    }
    false
}

// ---------------------------------------------------------------------------
// Classes of characters
// ---------------------------------------------------------------------------

/// The Unicode `White_Space` property, as used by `char::is_whitespace`.
pub open spec fn is_ws(c: char) -> bool {
    let u = c as u32;
    (9 <= u && u <= 13) || u == 32 || u == 0x85 || u == 0xA0 || u == 0x1680 || (0x2000 <= u
        && u <= 0x200A) || u == 0x2028 || u == 0x2029 || u == 0x202F || u == 0x205F || u == 0x3000
}

/// Whether `c` is a whitespace character.
pub fn is_whitespace(c: char) -> (r: bool)
    ensures
        r == is_ws(c),
{
    let u = c as u32;
    (9 <= u && u <= 13) || u == 32 || u == 0x85 || u == 0xA0 || u == 0x1680 || (0x2000 <= u
        && u <= 0x200A) || u == 0x2028 || u == 0x2029 || u == 0x202F || u == 0x205F || u == 0x3000
}

/// An ASCII decimal digit.
pub open spec fn is_digit(c: char) -> bool {
    '0' <= c && c <= '9'
}

/// An ASCII letter.
pub open spec fn is_ascii_alpha(c: char) -> bool {
    ('a' <= c && c <= 'z') || ('A' <= c && c <= 'Z')
}

// ---------------------------------------------------------------------------
// Splitting
// ---------------------------------------------------------------------------

/// The character sequences of a sequence of character vectors.
pub open spec fn views(v: Seq<Vec<char>>) -> Seq<Seq<char>> {
    Seq::new(v.len(), |i: int| v[i]@)
}

/// The pieces of `s` between occurrences of `sep` (std's `str::split` with a char).
pub open spec fn split_spec(s: Seq<char>, sep: char) -> Seq<Seq<char>>
    decreases s.len(),
{
    if s.len() == 0 {
        seq![Seq::<char>::empty()]
    } else {
        let init = split_spec(s.drop_last(), sep);
        if s.last() == sep {
            init.push(Seq::<char>::empty())
        } else {
            init.update(init.len() - 1, init.last().push(s.last()))
        }
    }
}

/// Splitting never yields an empty list of pieces.
pub proof fn lemma_split_len(s: Seq<char>, sep: char)
    ensures
        split_spec(s, sep).len() >= 1,
    decreases s.len(),
{
    if s.len() > 0 {
        lemma_split_len(s.drop_last(), sep);
    }
}

/// Splits `s` at every occurrence of `sep`.
pub fn split_chars(s: &Vec<char>, sep: char) -> (r: Vec<Vec<char>>)
    ensures
        views(r@) == split_spec(s@, sep),
        r@.len() >= 1,
{
    let mut pieces: Vec<Vec<char>> = Vec::new();
    let mut cur: Vec<char> = Vec::new();
    let mut i: usize = 0;
    proof {
        assert(s@.subrange(0, 0) =~= Seq::<char>::empty());
        assert(views(pieces@).push(cur@) =~= split_spec(s@.subrange(0, 0), sep));
    }
    while i < s.len()
        invariant
            i <= s.len(),
            views(pieces@).push(cur@) == split_spec(s@.subrange(0, i as int), sep),
        decreases s.len() - i,
    {
        let c = s[i];
        let ghost pre = s@.subrange(0, i as int);
        let ghost post = s@.subrange(0, i + 1);
        proof {
            assert(post.drop_last() =~= pre);
            assert(post.last() == c);
            lemma_split_len(pre, sep);
        }
        if c == sep {
            let done = cur;
            pieces.push(done);
            cur = Vec::new();
            proof {
                assert(views(pieces@).push(cur@) =~= split_spec(pre, sep).push(Seq::<char>::empty()));
            }
        } else {
            cur.push(c);
            proof {
                let old_v = split_spec(pre, sep);
                assert(views(pieces@).push(cur@) =~= old_v.update(old_v.len() - 1, old_v.last().push(c)));
            }
        }
        i = i + 1;
    }
    pieces.push(cur);
    proof {
        assert(s@.subrange(0, s@.len() as int) =~= s@);
        assert(views(pieces@) =~= split_spec(s@, sep));
    }
    pieces
}

/// Removes one trailing carriage return.
pub open spec fn strip_cr(l: Seq<char>) -> Seq<char> {
    if l.len() > 0 && l.last() == '\r' {
        l.drop_last()
    } else {
        l
    }
}

/// The lines of `s` (std's `str::lines`): split at `\n`, a `\r` before a
/// `\n` is dropped, and a final line ending yields no empty last line.
pub open spec fn lines_spec(s: Seq<char>) -> Seq<Seq<char>> {
    let parts = split_spec(s, '\n');
    let n = parts.len();
    let body = Seq::new((n - 1) as nat, |i: int| strip_cr(parts[i]));
    if parts[n - 1].len() == 0 {
        body
    } else {
        body.push(parts[n - 1])
    }
}

/// A line without its trailing carriage return.
fn strip_cr_vec(l: Vec<char>) -> (r: Vec<char>)
    ensures
        r@ == strip_cr(l@),
{
    let mut l = l;
    if l.len() > 0 && l[l.len() - 1] == '\r' {
        l.pop();
    }
    l
}

/// Splits `s` into lines.
pub fn lines_of(s: &Vec<char>) -> (r: Vec<Vec<char>>)
    ensures
        views(r@) == lines_spec(s@),
{
    let parts = split_chars(s, '\n');
    let ghost pv = views(parts@);
    let n = parts.len();
    let mut out: Vec<Vec<char>> = Vec::new();
    let mut i: usize = 0;
    while i + 1 < n
        invariant
            n == parts@.len(),
            n >= 1,
            pv == views(parts@),
            i + 1 <= n,
            views(out@) == Seq::new(i as nat, |k: int| strip_cr(pv[k])),
        decreases n - i,
    {
        let l = copy_chars(&parts[i]);
        let l2 = strip_cr_vec(l);
        let ghost lv = l2@;
        let ghost before = views(out@);
        proof {
            assert(pv[i as int] == parts@[i as int]@);
            assert(lv == strip_cr(pv[i as int]));
        }
        out.push(l2);
        proof {
            assert(views(out@) =~= before.push(lv));
        }
        i = i + 1;
        proof {
            assert(views(out@) =~= Seq::new(i as nat, |k: int| strip_cr(pv[k])));
        }
    }
    if parts[n - 1].len() != 0 {
        let last = copy_chars(&parts[n - 1]);
        out.push(last);
        proof {
            assert(views(out@) =~= lines_spec(s@));
        }
    } else {
        proof {
            assert(views(out@) =~= lines_spec(s@));
        }
    }
    out
}

/// The maximal runs of non-whitespace characters (std's `str::split_whitespace`).
pub open spec fn tokens_spec(s: Seq<char>) -> Seq<Seq<char>>
    decreases s.len(),
{
    if s.len() == 0 {
        Seq::empty()
    } else {
        let t = tokens_spec(s.drop_last());
        let c = s.last();
        if is_ws(c) {
            t
        } else if s.len() >= 2 && !is_ws(s[s.len() - 2]) {
            t.update(t.len() - 1, t.last().push(c))
        } else {
            t.push(seq![c])
        }
    }
}

/// A sequence ending in a non-whitespace character has at least one token.
pub proof fn lemma_tokens_nonempty(s: Seq<char>)
    requires
        s.len() >= 1,
        !is_ws(s.last()),
    ensures
        tokens_spec(s).len() >= 1,
    decreases s.len(),
{
    if s.len() >= 2 && !is_ws(s[s.len() - 2]) {
        let d = s.drop_last();
        assert(d.last() == s[s.len() - 2]);
        lemma_tokens_nonempty(d);
    }
}

/// Splits `s` at whitespace, dropping empty pieces.
pub fn tokens_of(s: &Vec<char>) -> (r: Vec<Vec<char>>)
    ensures
        views(r@) == tokens_spec(s@),
{
    let mut toks: Vec<Vec<char>> = Vec::new();
    let mut i: usize = 0;
    proof {
        assert(s@.subrange(0, 0) =~= Seq::<char>::empty());
        assert(views(toks@) =~= tokens_spec(s@.subrange(0, 0)));
    }
    while i < s.len()
        invariant
            i <= s.len(),
            views(toks@) == tokens_spec(s@.subrange(0, i as int)),
        decreases s.len() - i,
    {
        let c = s[i];
        let ghost pre = s@.subrange(0, i as int);
        let ghost post = s@.subrange(0, i + 1);
        proof {
            assert(post.drop_last() =~= pre);
            assert(post.last() == c);
        }
        if is_whitespace(c) {
        } else if i >= 1 && !is_whitespace(s[i - 1]) {
            proof {
                assert(post[post.len() - 2] == s@[i - 1]);
                assert(pre.last() == s@[i - 1]);
                lemma_tokens_nonempty(pre);
            }
            let mut last = toks.pop().unwrap();
            last.push(c);
            toks.push(last);
            proof {
                let t = tokens_spec(pre);
                assert(views(toks@) =~= t.update(t.len() - 1, t.last().push(c)));
            }
        } else {
            let mut v: Vec<char> = Vec::new();
            v.push(c);
            toks.push(v);
            proof {
                if i >= 1 {
                    assert(post[post.len() - 2] == s@[i - 1]);
                }
                assert(views(toks@) =~= tokens_spec(pre).push(seq![c]));
            }
        }
        i = i + 1;
    }
    proof {
        assert(s@.subrange(0, s@.len() as int) =~= s@);
    }
    toks
}

// ---------------------------------------------------------------------------
// Trimming
// ---------------------------------------------------------------------------

/// `s` without leading whitespace.
pub open spec fn trim_start_spec(s: Seq<char>) -> Seq<char>
    decreases s.len(),
{
    if s.len() > 0 && is_ws(s[0]) {
        trim_start_spec(s.drop_first())
    } else {
        s
    }
}

/// `s` without trailing whitespace.
pub open spec fn trim_end_spec(s: Seq<char>) -> Seq<char>
    decreases s.len(),
{
    if s.len() > 0 && is_ws(s.last()) {
        trim_end_spec(s.drop_last())
    } else {
        s
    }
}

/// `s` without leading and trailing whitespace (std's `str::trim`).
pub open spec fn trim_spec(s: Seq<char>) -> Seq<char> {
    trim_end_spec(trim_start_spec(s))
}

/// Removes leading and trailing whitespace.
pub fn trim_chars(s: &Vec<char>) -> (r: Vec<char>)
    ensures
        r@ == trim_spec(s@),
{
    let n = s.len();
    let mut a: usize = 0;
    proof {
        assert(s@.subrange(0, n as int) =~= s@);
    }
    while a < n && is_whitespace(s[a])
        invariant
            n == s@.len(),
            a <= n,
            trim_start_spec(s@) == trim_start_spec(s@.subrange(a as int, n as int)),
        decreases n - a,
    {
        proof {
            assert(s@.subrange(a as int, n as int).drop_first() =~= s@.subrange(a + 1, n as int));
        }
        a = a + 1;
    }
    let ghost t = s@.subrange(a as int, n as int);
    proof {
        assert(trim_start_spec(s@) == t);
    }
    let mut b: usize = n;
    proof {
        assert(t.subrange(0, (n - a) as int) =~= t);
    }
    while b > a && is_whitespace(s[b - 1])
        invariant
            n == s@.len(),
            a <= b <= n,
            t == s@.subrange(a as int, n as int),
            trim_end_spec(t) == trim_end_spec(t.subrange(0, (b - a) as int)),
        decreases b,
    {
        proof {
            assert(t.subrange(0, (b - a) as int).drop_last() =~= t.subrange(0, (b - 1 - a) as int));
        }
        b = b - 1;
    }
    let mut r: Vec<char> = Vec::new();
    let mut k: usize = a;
    while k < b
        invariant
            n == s@.len(),
            a <= k <= b,
            b <= n,
            r@ == s@.subrange(a as int, k as int),
        decreases b - k,
    {
        r.push(s[k]);
        k = k + 1;
        proof {
            assert(r@ =~= s@.subrange(a as int, k as int));
        }
    }
    proof {
        assert(r@ =~= t.subrange(0, (b - a) as int));
    }
    r
}

// ---------------------------------------------------------------------------
// Decimal numbers
// ---------------------------------------------------------------------------

/// The ASCII digit for a value below ten.
pub open spec fn digit_char(d: int) -> char {
    if d == 0 {
        '0'
    } else if d == 1 {
        '1'
    } else if d == 2 {
        '2'
    } else if d == 3 {
        '3'
    } else if d == 4 {
        '4'
    } else if d == 5 {
        '5'
    } else if d == 6 {
        '6'
    } else if d == 7 {
        '7'
    } else if d == 8 {
        '8'
    } else {
        '9'
    }
}

/// The decimal representation of a natural number, without leading zeros.
pub open spec fn dec_spec(n: nat) -> Seq<char>
    decreases n,
{
    if n < 10 {
        seq![digit_char(n as int)]
    } else {
        dec_spec(n / 10).push(digit_char((n % 10) as int))
    }
}

/// The decimal representation of an integer, with a leading minus sign when negative.
pub open spec fn dec_int_spec(n: int) -> Seq<char> {
    if n < 0 {
        seq!['-'] + dec_spec((-n) as nat)
    } else {
        dec_spec(n as nat)
    }
}

fn digit(d: u64) -> (c: char)
    requires
        d < 10,
    ensures
        c == digit_char(d as int),
{
    if d == 0 {
        '0'
    } else if d == 1 {
        '1'
    } else if d == 2 {
        '2'
    } else if d == 3 {
        '3'
    } else if d == 4 {
        '4'
    } else if d == 5 {
        '5'
    } else if d == 6 {
        '6'
    } else if d == 7 {
        '7'
    } else if d == 8 {
        '8'
    } else {
        '9'
    }
}

/// The decimal digits of `n`.
pub fn u64_dec(n: u64) -> (r: Vec<char>)
    ensures
        r@ == dec_spec(n as nat),
    decreases n,
{
    if n < 10 {
        let mut v: Vec<char> = Vec::new();
        v.push(digit(n));
        proof {
            assert(v@ =~= dec_spec(n as nat));
        }
        v
    } else {
        let mut v = u64_dec(n / 10);
        v.push(digit(n % 10));
        v
    }
}

/// The decimal representation of `n`, with a minus sign when negative.
pub fn i64_dec(n: i64) -> (r: Vec<char>)
    ensures
        r@ == dec_int_spec(n as int),
{
    if n < 0 {
        let m: u64 = (-(n as i128)) as u64;
        let d = u64_dec(m);
        let mut v: Vec<char> = Vec::new();
        v.push('-');
        extend_chars(&mut v, &d);
        proof {
            assert(v@ =~= seq!['-'] + dec_spec((-(n as int)) as nat));
        }
        v
    } else {
        u64_dec(n as u64)
    }
}

/// The value of a sequence of decimal digits.
pub open spec fn digits_value(s: Seq<char>) -> nat
    decreases s.len(),
{
    if s.len() == 0 {
        0
    } else {
        digits_value(s.drop_last()) * 10 + ((s.last() as int - 48) as nat)
    }
}

/// Every character is a decimal digit.
pub open spec fn all_digits(s: Seq<char>) -> bool {
    forall|i: int| 0 <= i < s.len() ==> is_digit(#[trigger] s[i])
}

/// The digits that std's unsigned integer parser reads: an optional leading `+`.
pub open spec fn unsigned_body(s: Seq<char>) -> Seq<char> {
    if s.len() > 0 && s[0] == '+' {
        s.drop_first()
    } else {
        s
    }
}

/// std's `str::parse` for an unsigned integer type whose maximum is `max`.
pub open spec fn parse_unsigned_spec(s: Seq<char>, max: nat) -> Option<nat> {
    let d = unsigned_body(s);
    if d.len() > 0 && all_digits(d) && digits_value(d) <= max {
        Some(digits_value(d))
    } else {
        None
    }
}

/// A prefix of a digit sequence has no larger value.
pub proof fn lemma_digits_value_prefix(s: Seq<char>, k: int)
    requires
        0 <= k <= s.len(),
        all_digits(s),
    ensures
        digits_value(s.subrange(0, k)) <= digits_value(s),
    decreases s.len() - k,
{
    if k < s.len() {
        lemma_digits_value_prefix(s, k + 1);
        let p = s.subrange(0, k + 1);
        assert(p.drop_last() =~= s.subrange(0, k));
        assert(is_digit(s[k]));
    } else {
        assert(s.subrange(0, k) =~= s);
    }
}

/// Parses an unsigned decimal number no larger than `max`.
pub fn parse_unsigned(s: &Vec<char>, max: u64) -> (r: Option<u64>)
    ensures
        match parse_unsigned_spec(s@, max as nat) {
            Some(v) => r == Some(v as u64),
            None => r is None,
        },
{
    let start: usize = if s.len() > 0 && s[0] == '+' {
        1
    } else {
        0
    };
    let ghost d = unsigned_body(s@);
    proof {
        assert(d =~= s@.subrange(start as int, s@.len() as int));
    }
    if start >= s.len() {
        return None;
    }
    let mut acc: u64 = 0;
    let mut i: usize = start;
    while i < s.len()
        invariant
            start <= i <= s.len(),
            d == s@.subrange(start as int, s@.len() as int),
            d == unsigned_body(s@),
            d.len() > 0,
            all_digits(d.subrange(0, i - start)),
            acc as nat == digits_value(d.subrange(0, i - start)),
            acc <= max,
        decreases s.len() - i,
    {
        let c = s[i];
        if !('0' <= c && c <= '9') {
            proof {
                let k: int = (i - start) as int;
                assert(d[k] == c);
                assert(!is_digit(d[k]));
                assert(!all_digits(d));
            }
            return None;
        }
        let dv: u64 = (c as u32 - 48) as u64;
        let ghost pre = d.subrange(0, i - start);
        let ghost post = d.subrange(0, i + 1 - start);
        proof {
            assert(post.drop_last() =~= pre);
            assert(post.last() == c);
            assert(all_digits(post));
        }
        if dv > max || acc > (max - dv) / 10 {
            proof {
                assert(acc * 10 + dv > max) by (nonlinear_arith)
                    requires
                        dv > max || acc > (max - dv) / 10,
                        dv <= 9,
                ;
                if all_digits(d) {
                    lemma_digits_value_prefix(d, i + 1 - start);
                }
            }
            return None;
        }
        proof {
            assert(acc * 10 + dv <= max) by (nonlinear_arith)
                requires
                    acc <= (max - dv) / 10,
                    dv <= max,
            ;
        }
        acc = acc * 10 + dv;
        i = i + 1;
    }
    proof {
        assert(d.subrange(0, i - start) =~= d);
    }
    Some(acc)
}

} // verus!

verus! {

/// `s` without all trailing occurrences of `c` (std's `trim_end_matches` with a char).
pub open spec fn trim_end_char_spec(s: Seq<char>, c: char) -> Seq<char>
    decreases s.len(),
{
    if s.len() > 0 && s.last() == c {
        trim_end_char_spec(s.drop_last(), c)
    } else {
        s
    }
}

/// Removes all trailing occurrences of `c`.
pub fn trim_end_char(s: &str, c: char) -> (r: String)
    ensures
        r@ == trim_end_char_spec(s@, c),
{
    let cs = chars_of(s);
    let mut b: usize = cs.len();
    proof {
        assert(cs@.subrange(0, b as int) =~= cs@);
    }
    while b > 0 && cs[b - 1] == c
        invariant
            b <= cs@.len(),
            trim_end_char_spec(cs@, c) == trim_end_char_spec(cs@.subrange(0, b as int), c),
        decreases b,
    {
        proof {
            assert(cs@.subrange(0, b as int).drop_last() =~= cs@.subrange(0, b - 1));
        }
        b = b - 1;
    }
    let mut r = String::new();
    let mut k: usize = 0;
    while k < b
        invariant
            k <= b,
            b <= cs@.len(),
            r@ == cs@.subrange(0, k as int),
        decreases b - k,
    {
        push_char(&mut r, cs[k]);
        k = k + 1;
        proof {
            assert(r@ =~= cs@.subrange(0, k as int));
        }
    }
    r
}

/// Appends the decimal digits of `n`.
pub fn append_u64(s: &mut String, n: u64)
    ensures
        final(s)@ == old(s)@ + dec_spec(n as nat),
{
    let d = u64_dec(n);
    append_chars(s, &d);
}

/// Appends the decimal representation of `n`.
pub fn append_i64(s: &mut String, n: i64)
    ensures
        final(s)@ == old(s)@ + dec_int_spec(n as int),
{
    let d = i64_dec(n);
    append_chars(s, &d);
}

} // verus!

verus! {

/// The position of the first `c` in `s`.
pub open spec fn first_index(s: Seq<char>, c: char) -> Option<int>
    decreases s.len(),
{
    if s.len() == 0 {
        None
    } else if s[0] == c {
        Some(0)
    } else {
        match first_index(s.drop_first(), c) {
            Some(k) => Some(k + 1),
            None => None,
        }
    }
}

/// The parts before and after the first `c` (std's `str::split_once` with a char).
pub open spec fn split_once_spec(s: Seq<char>, c: char) -> Option<(Seq<char>, Seq<char>)> {
    match first_index(s, c) {
        Some(i) => Some((s.subrange(0, i), s.subrange(i + 1, s.len() as int))),
        None => None,
    }
}

/// A found index points at `c` and is in range.
pub proof fn lemma_first_index(s: Seq<char>, c: char)
    ensures
        first_index(s, c) matches Some(k) ==> 0 <= k < s.len() && s[k] == c,
    decreases s.len(),
{
    if s.len() > 0 && s[0] != c {
        lemma_first_index(s.drop_first(), c);
    }
}

/// Splits `s` at its first `c`.
pub fn split_once_chars(s: &Vec<char>, c: char) -> (r: Option<(Vec<char>, Vec<char>)>)
    ensures
        match split_once_spec(s@, c) {
            Some((a, b)) => r matches Some((x, y)) && x@ == a && y@ == b,
            None => r is None,
        },
{
    let mut i: usize = 0;
    proof {
        assert(s@.subrange(0, s@.len() as int) =~= s@);
    }
    while i < s.len()
        invariant
            i <= s@.len(),
            first_index(s@, c) == (match first_index(s@.subrange(i as int, s@.len() as int), c) {
                Some(k) => Some(k + i),
                None => None,
            }),
        decreases s.len() - i,
    {
        let ghost rest = s@.subrange(i as int, s@.len() as int);
        proof {
            assert(rest.drop_first() =~= s@.subrange(i + 1, s@.len() as int));
            assert(rest[0] == s@[i as int]);
        }
        if s[i] == c {
            let mut a: Vec<char> = Vec::new();
            let mut j: usize = 0;
            while j < i
                invariant
                    j <= i,
                    i < s@.len(),
                    a@ == s@.subrange(0, j as int),
                decreases i - j,
            {
                a.push(s[j]);
                j = j + 1;
                proof {
                    assert(a@ =~= s@.subrange(0, j as int));
                }
            }
            let mut b: Vec<char> = Vec::new();
            let mut k: usize = i + 1;
            while k < s.len()
                invariant
                    i + 1 <= k <= s@.len(),
                    b@ == s@.subrange(i + 1, k as int),
                decreases s.len() - k,
            {
                b.push(s[k]);
                k = k + 1;
                proof {
                    assert(b@ =~= s@.subrange(i + 1, k as int));
                }
            }
            return Some((a, b));
        }
        i = i + 1;
    }
    None
}


/// The characters of `s` from position `k` on.
pub fn suffix_chars(s: &Vec<char>, k: usize) -> (r: Vec<char>)
    requires
        k <= s.len(),
    ensures
        r@ == s@.subrange(k as int, s@.len() as int),
{
    let mut r: Vec<char> = Vec::new();
    let mut i: usize = k;
    while i < s.len()
        invariant
            k <= i <= s@.len(),
            r@ == s@.subrange(k as int, i as int),
        decreases s.len() - i,
    {
        r.push(s[i]);
        i = i + 1;
        proof {
            assert(r@ =~= s@.subrange(k as int, i as int));
        }
    }
    r
}


// ---------------------------------------------------------------------------
// Lines that are written back
// ---------------------------------------------------------------------------

/// `s` has no occurrence of `c`.
pub open spec fn lacks(s: Seq<char>, c: char) -> bool {
    forall|i: int| 0 <= i < s.len() ==> s[i] != c
}

/// Lines, each followed by a newline.
pub open spec fn terminated(lines: Seq<Seq<char>>) -> Seq<char>
    decreases lines.len(),
{
    if lines.len() == 0 {
        Seq::empty()
    } else {
        terminated(lines.drop_last()) + lines.last() + "\n"@
    }
}

/// Appending text without the separator extends the last piece.
pub proof fn lemma_split_append_word(s: Seq<char>, w: Seq<char>, sep: char)
    requires
        lacks(w, sep),
    ensures
        split_spec(s + w, sep) == ({
            let p = split_spec(s, sep);
            p.update(p.len() - 1, p.last() + w)
        }),
    decreases w.len(),
{
    lemma_split_len(s, sep);
    let p = split_spec(s, sep);
    if w.len() == 0 {
        assert(s + w =~= s);
        assert(p.last() + w =~= p.last());
        assert(p.update(p.len() - 1, p.last() + w) =~= p);
    } else {
        let w0 = w.drop_last();
        lemma_split_append_word(s, w0, sep);
        assert((s + w).drop_last() =~= s + w0);
        assert((s + w).last() == w.last());
        lemma_split_len(s + w0, sep);
        assert((p.last() + w0).push(w.last()) =~= p.last() + w);
        assert(split_spec(s + w, sep) =~= p.update(p.len() - 1, p.last() + w));
    }
}

/// Splitting newline-terminated lines at `\n` gives the lines and an empty rest.
pub proof fn lemma_split_terminated(ls: Seq<Seq<char>>)
    requires
        forall|i: int| 0 <= i < ls.len() ==> lacks(#[trigger] ls[i], '\n'),
    ensures
        split_spec(terminated(ls), '\n') == ls.push(Seq::<char>::empty()),
    decreases ls.len(),
{
    reveal_strlit("\n");
    if ls.len() == 0 {
        assert(ls.push(Seq::<char>::empty()) =~= seq![Seq::<char>::empty()]);
    } else {
        let init = ls.drop_last();
        assert forall|i: int| 0 <= i < init.len() implies lacks(#[trigger] init[i], '\n') by {
            assert(init[i] == ls[i]);
        }
        lemma_split_terminated(init);
        let t = terminated(init);
        let l = ls.last();
        assert(lacks(ls[ls.len() - 1], '\n'));
        lemma_split_append_word(t, l, '\n');
        let full = t + l + "\n"@;
        assert(full.drop_last() =~= t + l);
        assert(full.last() == '\n');
        assert(Seq::<char>::empty() + l =~= l);
        assert(init.push(Seq::<char>::empty()).update(init.len() as int, Seq::<char>::empty() + l) =~= ls);
    }
}

/// Newline-terminated lines without `\n` and `\r` read back as the same lines.
pub proof fn lemma_lines_terminated(ls: Seq<Seq<char>>)
    requires
        forall|i: int| 0 <= i < ls.len() ==> lacks(#[trigger] ls[i], '\n') && lacks(ls[i], '\r'),
    ensures
        lines_spec(terminated(ls)) == ls,
{
    lemma_split_terminated(ls);
    let parts = ls.push(Seq::<char>::empty());
    assert forall|i: int| 0 <= i < ls.len() implies strip_cr(parts[i]) == ls[i] by {
        assert(parts[i] == ls[i]);
        if ls[i].len() > 0 {
            assert(lacks(ls[i], '\r'));
            assert(ls[i][ls[i].len() - 1] != '\r');
        }
    }
    assert(lines_spec(terminated(ls)) =~= ls);
}

/// The pieces of a text without `c` contain neither `c` nor the separator.
pub proof fn lemma_split_avoids(s: Seq<char>, sep: char, c: char)
    requires
        lacks(s, c),
    ensures
        forall|i: int| 0 <= i < split_spec(s, sep).len() ==> lacks(#[trigger] split_spec(s, sep)[i], c) && lacks(
            split_spec(s, sep)[i],
            sep,
        ),
    decreases s.len(),
{
    if s.len() > 0 {
        let d = s.drop_last();
        lemma_split_avoids(d, sep, c);
        lemma_split_len(d, sep);
        let init = split_spec(d, sep);
        let x = s.last();
        assert(x == s[s.len() - 1]);
        if x != sep {
            let nl = init.last().push(x);
            assert(lacks(init[init.len() - 1], c) && lacks(init[init.len() - 1], sep));
            assert(lacks(nl, c) && lacks(nl, sep)) by {
                assert forall|j: int| 0 <= j < nl.len() implies nl[j] != c && nl[j] != sep by {
                    if j < nl.len() - 1 {
                        assert(nl[j] == init.last()[j]);
                    }
                }
            }
            let r = split_spec(s, sep);
            assert forall|i: int| 0 <= i < r.len() implies lacks(#[trigger] r[i], c) && lacks(r[i], sep) by {
                if i < r.len() - 1 {
                    assert(r[i] == init[i]);
                } else {
                    assert(r[i] == nl);
                }
            }
        } else {
            let r = split_spec(s, sep);
            assert forall|i: int| 0 <= i < r.len() implies lacks(#[trigger] r[i], c) && lacks(r[i], sep) by {
                if i < r.len() - 1 {
                    assert(r[i] == init[i]);
                }
            }
        }
    }
}

/// The lines of a text without `c` contain neither `c` nor `\n`.
pub proof fn lemma_lines_avoid(s: Seq<char>, c: char)
    requires
        lacks(s, c),
    ensures
        forall|i: int| 0 <= i < lines_spec(s).len() ==> lacks(#[trigger] lines_spec(s)[i], c) && lacks(
            lines_spec(s)[i],
            '\n',
        ),
{
    lemma_split_avoids(s, '\n', c);
    lemma_split_len(s, '\n');
    let parts = split_spec(s, '\n');
    let ls = lines_spec(s);
    assert forall|i: int| 0 <= i < ls.len() implies lacks(#[trigger] ls[i], c) && lacks(ls[i], '\n') by {
        if i < parts.len() - 1 {
            assert(ls[i] == strip_cr(parts[i]));
            assert(lacks(parts[i], c) && lacks(parts[i], '\n'));
            if parts[i].len() > 0 && parts[i].last() == '\r' {
                assert forall|j: int| 0 <= j < ls[i].len() implies ls[i][j] != c && ls[i][j] != '\n' by {
                    assert(ls[i][j] == parts[i][j]);
                }
            }
        } else {
            assert(ls[i] == parts[parts.len() - 1]);
        }
    }
}

/// A word after nothing or after whitespace becomes a token of its own.
pub proof fn lemma_tokens_append_word(p: Seq<char>, w: Seq<char>)
    requires
        w.len() > 0,
        forall|i: int| 0 <= i < w.len() ==> !is_ws(#[trigger] w[i]),
        p.len() == 0 || is_ws(p.last()),
    ensures
        tokens_spec(p + w) == tokens_spec(p).push(w),
    decreases w.len(),
{
    if w.len() == 1 {
        assert(p + w =~= p.push(w[0]));
        assert((p + w).drop_last() =~= p);
        assert(seq![w[0]] =~= w);
        assert(!is_ws(w[0]));
        if p.len() > 0 {
            assert((p + w)[(p + w).len() - 2] == p.last());
        }
    } else {
        let w0 = w.drop_last();
        assert forall|i: int| 0 <= i < w0.len() implies !is_ws(#[trigger] w0[i]) by {
            assert(w0[i] == w[i]);
        }
        lemma_tokens_append_word(p, w0);
        let s = p + w;
        assert(s.drop_last() =~= p + w0);
        assert(s[s.len() - 2] == w[w.len() - 2]);
        assert(!is_ws(w[w.len() - 2]));
        assert(!is_ws(w[w.len() - 1]));
        assert(w0.push(w.last()) =~= w);
        let t = tokens_spec(p).push(w0);
        assert(t.update(t.len() - 1, t.last().push(s.last())) =~= tokens_spec(p).push(w));
    }
}

/// Trailing whitespace adds no token.
pub proof fn lemma_tokens_append_ws(s: Seq<char>, c: char)
    requires
        is_ws(c),
    ensures
        tokens_spec(s.push(c)) == tokens_spec(s),
{
    assert(s.push(c).drop_last() =~= s);
}

/// Decimal representations are non-empty strings of digits.
pub proof fn lemma_dec_digits(n: nat)
    ensures
        dec_spec(n).len() >= 1,
        forall|i: int| 0 <= i < dec_spec(n).len() ==> is_digit(#[trigger] dec_spec(n)[i]),
    decreases n,
{
    if n >= 10 {
        lemma_dec_digits(n / 10);
        let d = dec_spec(n / 10);
        let r = dec_spec(n);
        assert forall|i: int| 0 <= i < r.len() implies is_digit(#[trigger] r[i]) by {
            if i < d.len() {
                assert(r[i] == d[i]);
            }
        }
    }
}


// ---------------------------------------------------------------------------
// Case mapping
// ---------------------------------------------------------------------------

/// The lower-case form of a text as std's `str::to_lowercase` computes it
/// (Unicode `Lowercase_Mapping`, character by character, with the special
/// rule for a final capital sigma).
pub uninterp spec fn lowercase_of(s: Seq<char>) -> Seq<char>;

/// std's `str::to_lowercase`. The contract claims that the result is the
/// lower-case form named `lowercase_of` of the text and nothing more.
#[verifier::external_body]
pub(crate) fn to_lowercase(s: &str) -> (r: String)
    ensures
        r@ == lowercase_of(s@),
{
    s.to_lowercase()
}

/// The upper-case form of a text as std's `str::to_uppercase` computes it
/// (Unicode `Uppercase_Mapping`, character by character).
pub uninterp spec fn uppercase_of(s: Seq<char>) -> Seq<char>;

/// std's `str::to_uppercase`. The contract claims that the result is the
/// upper-case form named `uppercase_of` of the text and nothing more.
#[verifier::external_body]
pub(crate) fn to_uppercase(s: &str) -> (r: String)
    ensures
        r@ == uppercase_of(s@),
{
    s.to_uppercase()
}

/// The position of the first occurrence of a word.
pub open spec fn word_pos(ws: Seq<Seq<char>>, w: Seq<char>) -> Option<int>
    decreases ws.len(),
{
    if ws.len() == 0 {
        None
    } else if ws[0] == w {
        Some(0)
    } else {
        match word_pos(ws.drop_first(), w) {
            Some(i) => Some(i + 1),
            None => None,
        }
    }
}

/// The first occurrence is where the word stands and none stands before it.
pub proof fn lemma_word_pos(ws: Seq<Seq<char>>, w: Seq<char>, i: int)
    requires
        0 <= i <= ws.len(),
        i < ws.len() ==> ws[i] == w,
        forall|j: int| 0 <= j < i ==> ws[j] != w,
    ensures
        word_pos(ws, w) == (if i < ws.len() {
            Some(i)
        } else {
            None::<int>
        }),
    decreases ws.len(),
{
    if ws.len() > 0 && i > 0 {
        let t = ws.drop_first();
        assert forall|j: int| 0 <= j < i - 1 implies t[j] != w by {
            assert(t[j] == ws[j + 1]);
        }
        if i < ws.len() {
            assert(t[i - 1] == ws[i]);
        }
        lemma_word_pos(t, w, i - 1);
        assert(ws[0] != w);
    }
}

/// Finds the first occurrence of a word.
pub fn find_word(ws: &Vec<Vec<char>>, w: &Vec<char>) -> (r: Option<usize>)
    ensures
        match word_pos(views(ws@), w@) {
            Some(i) => 0 <= i < ws@.len() && r == Some(i as usize),
            None => r is None,
        },
{
    let mut i: usize = 0;
    while i < ws.len()
        invariant
            i <= ws@.len(),
            forall|j: int| 0 <= j < i ==> views(ws@)[j] != w@,
        decreases ws.len() - i,
    {
        if chars_eq(&ws[i], w) {
            proof {
                lemma_word_pos(views(ws@), w@, i as int);
            }
            return Some(i);
        }
        proof {
            assert(views(ws@)[i as int] == ws@[i as int]@);
        }
        i = i + 1;
    }
    proof {
        lemma_word_pos(views(ws@), w@, ws@.len() as int);
    }
    None
}

} // verus!
