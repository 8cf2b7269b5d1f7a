//! Small operations on text, proved against `Seq<char>`.
use vstd::prelude::*;

verus! {

/// Makes an owned copy of a string slice.
pub fn owned(s: &str) -> (r: String)
    ensures
        r@ == s@,
{
    String::from_str(s)
}

/// The characters of `s` from `from` up to, not including, `to`.
pub fn piece(s: &str, from: usize, to: usize) -> (r: String)
    requires
        from <= to <= s@.len(),
    ensures
        r@ == s@.subrange(from as int, to as int),
{
    String::from_str(s.substring_char(from, to))
}

/// Whether `s` begins with `p`.
pub fn starts_with(s: &str, p: &str) -> (r: bool)
    ensures
        r == p@.is_prefix_of(s@),
{
    let n = p.unicode_len();
    if n > s.unicode_len() {
        return false;
    }
    let head = piece(s, 0, n);
    let r = head == owned(p);
    proof {
        if p@.is_prefix_of(s@) {
            assert(s@.subrange(0, n as int) =~= p@);
        }
    }
    r
}

/// `a` followed by `b`.
pub fn joined(a: &str, b: &str) -> (r: String)
    ensures
        r@ == a@ + b@,
{
    let mut s = owned(a);
    s.append(b);
    s
}

/// The characters that `char::is_whitespace` accepts: those of Unicode's
/// White_Space property.
pub open spec fn is_space(c: char) -> bool {
    let u = c as u32;
    ||| 0x09 <= u <= 0x0D
    ||| u == 0x20
    ||| u == 0x85
    ||| u == 0xA0
    ||| u == 0x1680
    ||| 0x2000 <= u <= 0x200A
    ||| u == 0x2028
    ||| u == 0x2029
    ||| u == 0x202F
    ||| u == 0x205F
    ||| u == 0x3000
}

pub fn space(c: char) -> (r: bool)
    ensures
        r == is_space(c),
{
    let u = c as u32;
    (0x09 <= u && u <= 0x0D) || u == 0x20 || u == 0x85 || u == 0xA0 || u == 0x1680 || (0x2000 <= u
        && u <= 0x200A) || u == 0x2028 || u == 0x2029 || u == 0x202F || u == 0x205F || u == 0x3000
}

/// `t` without its leading white space.
pub open spec fn trim_start(t: Seq<char>) -> Seq<char>
    decreases t.len(),
{
    if t.len() > 0 && is_space(t[0]) {
        trim_start(t.skip(1))
    } else {
        t
    }
}

/// `t` without its trailing white space.
pub open spec fn trim_end(t: Seq<char>) -> Seq<char>
    decreases t.len(),
{
    if t.len() > 0 && is_space(t.last()) {
        trim_end(t.drop_last())
    } else {
        t
    }
}

/// `t` without leading and trailing white space.
pub open spec fn trim(t: Seq<char>) -> Seq<char> {
    trim_end(trim_start(t))
}

/// `s` without leading and trailing white space.
pub fn trimmed(s: &str) -> (r: String)
    ensures
        r@ == trim(s@),
{
    let n = s.unicode_len();
    let ghost t = s@;
    let mut i: usize = 0;
    proof {
        assert(t.skip(0) =~= t);
    }
    while i < n && space(s.get_char(i))
        invariant
            n == t.len(),
            t == s@,
            i <= n,
            trim_start(t) == trim_start(t.skip(i as int)),
        decreases n - i,
    {
        proof {
            assert(t.skip(i as int)[0] == t[i as int]);
            assert(t.skip(i as int).skip(1) =~= t.skip(i + 1));
        }
        i = i + 1;
    }
    proof {
        if i < n {
            assert(t.skip(i as int)[0] == t[i as int]);
        }
        assert(t.skip(i as int) =~= t.subrange(i as int, n as int));
    }
    let mut j: usize = n;
    while j > i && space(s.get_char(j - 1))
        invariant
            n == t.len(),
            t == s@,
            i <= j <= n,
            trim(t) == trim_end(t.subrange(i as int, j as int)),
        decreases j,
    {
        proof {
            assert(t.subrange(i as int, j as int).last() == t[j - 1]);
            assert(t.subrange(i as int, j as int).drop_last() =~= t.subrange(i as int, j - 1));
        }
        j = j - 1;
    }
    proof {
        if j > i {
            assert(t.subrange(i as int, j as int).last() == t[j - 1]);
        }
    }
    piece(s, i, j)
}

/// The pieces of `t` between occurrences of `sep`, as `str::split` gives
/// them: one more piece than there are separators.
pub open spec fn split(t: Seq<char>, sep: char) -> Seq<Seq<char>>
    decreases t.len(),
{
    if t.len() == 0 {
        seq![Seq::empty()]
    } else {
        let p = split(t.drop_last(), sep);
        if t.last() == sep {
            p.push(Seq::empty())
        } else {
            p.update(p.len() - 1, p.last().push(t.last()))
        }
    }
}

proof fn lemma_split_nonempty(t: Seq<char>, sep: char)
    ensures
        split(t, sep).len() >= 1,
    decreases t.len(),
{
    if t.len() > 0 {
        lemma_split_nonempty(t.drop_last(), sep);
    }
}

pub open spec fn texts(v: Seq<String>) -> Seq<Seq<char>> {
    v.map_values(|x: String| x@)
}

/// The pieces of `s` between occurrences of `sep`.
pub fn split_on(s: &str, sep: char) -> (r: Vec<String>)
    ensures
        texts(r@) == split(s@, sep),
{
    let n = s.unicode_len();
    let ghost t = s@;
    let mut out: Vec<String> = Vec::new();
    let mut start: usize = 0;
    let mut i: usize = 0;
    proof {
        assert(t.take(0) =~= Seq::<char>::empty());
        assert(texts(out@) =~= Seq::<Seq<char>>::empty());
        assert(texts(out@).push(t.subrange(0, 0)) =~= seq![Seq::<char>::empty()]);
    }
    while i < n
        invariant
            n == t.len(),
            t == s@,
            start <= i <= n,
            texts(out@).push(t.subrange(start as int, i as int)) == split(t.take(i as int), sep),
        decreases n - i,
    {
        let c = s.get_char(i);
        proof {
            assert(t.take(i + 1).drop_last() =~= t.take(i as int));
            assert(t.take(i + 1).last() == t[i as int]);
            lemma_split_nonempty(t.take(i as int), sep);
        }
        if c == sep {
            let ghost before = texts(out@);
            let ghost s0 = start;
            out.push(piece(s, start, i));
            start = i + 1;
            proof {
                assert(t[i as int] == sep);
                assert(split(t.take(i + 1), sep) == split(t.take(i as int), sep).push(Seq::empty()));
                assert(t.subrange(start as int, i + 1) =~= Seq::<char>::empty());
                assert(texts(out@) =~= before.push(t.subrange(s0 as int, i as int)));
                assert(texts(out@).push(t.subrange(start as int, i + 1)) =~= split(t.take(i + 1), sep));
            }
        } else {
            proof {
                let p = split(t.take(i as int), sep);
                assert(t.subrange(start as int, i + 1) =~= t.subrange(start as int, i as int).push(t[i as int]));
                assert(texts(out@).push(t.subrange(start as int, i + 1)) =~= p.update(
                    p.len() - 1,
                    p.last().push(t[i as int]),
                ));
            }
        }
        i = i + 1;
    }
    let ghost before = texts(out@);
    out.push(piece(s, start, n));
    proof {
        assert(t.take(n as int) =~= t);
        assert(texts(out@) =~= before.push(t.subrange(start as int, n as int)));
    }
    out
}

/// `l` without one carriage return at its end.
pub open spec fn strip_cr(l: Seq<char>) -> Seq<char> {
    if l.len() > 0 && l.last() == '\r' {
        l.drop_last()
    } else {
        l
    }
}

/// The lines of `t` as `str::lines` gives them: split at `\n`, a `\r` before
/// a `\n` dropped, and no last empty line after a final `\n`.
pub open spec fn lines_of(t: Seq<char>) -> Seq<Seq<char>> {
    let p = split(t, '\n');
    let body = p.drop_last().map_values(|l: Seq<char>| strip_cr(l));
    if p.last().len() == 0 {
        body
    } else {
        body.push(p.last())
    }
}

fn without_cr(s: &str) -> (r: String)
    ensures
        r@ == strip_cr(s@),
{
    let n = s.unicode_len();
    if n > 0 && s.get_char(n - 1) == '\r' {
        piece(s, 0, n - 1)
    } else {
        proof {
            assert(s@.subrange(0, n as int) =~= s@);
        }
        piece(s, 0, n)
    }
}

/// The lines of `s`.
pub fn lines(s: &str) -> (r: Vec<String>)
    ensures
        texts(r@) == lines_of(s@),
{
    let parts = split_on(s, '\n');
    let ghost p = split(s@, '\n');
    proof {
        lemma_split_nonempty(s@, '\n');
    }
    let last = parts.len() - 1;
    let mut out: Vec<String> = Vec::new();
    let mut i: usize = 0;
    while i < last
        invariant
            texts(parts@) == p,
            p.len() >= 1,
            last == p.len() - 1,
            i <= last,
            texts(out@) == p.take(i as int).map_values(|l: Seq<char>| strip_cr(l)),
        decreases last - i,
    {
        let ghost before = texts(out@);
        out.push(without_cr(parts[i].as_str()));
        proof {
            assert(parts@[i as int]@ == p[i as int]);
            assert(p.take(i + 1) =~= p.take(i as int).push(p[i as int]));
            assert(texts(out@) =~= before.push(strip_cr(p[i as int])));
            assert(p.take(i + 1).map_values(|l: Seq<char>| strip_cr(l)) =~= p.take(i as int).map_values(
                |l: Seq<char>| strip_cr(l),
            ).push(strip_cr(p[i as int])));
        }
        i = i + 1;
    }
    proof {
        assert(p.take(last as int) =~= p.drop_last());
        assert(parts@[last as int]@ == p.last());
    }
    if parts[last].unicode_len() > 0 {
        let ghost before = texts(out@);
        out.push(parts[last].clone());
        proof {
            assert(texts(out@) =~= before.push(p.last()));
        }
    }
    out
}

/// The value of a string of decimal digits.
pub open spec fn digits_value(d: Seq<char>) -> nat
    decreases d.len(),
{
    if d.len() == 0 {
        0
    } else {
        digits_value(d.drop_last()) * 10 + ((d.last() as u32) - 48) as nat
    }
}

pub open spec fn is_digit(c: char) -> bool {
    48 <= c as u32 <= 57
}

/// The digits of a number as `str::parse::<usize>` reads them: the text
/// with one leading `+` dropped.
pub open spec fn unsigned_digits(t: Seq<char>) -> Seq<char> {
    if t.len() > 0 && t[0] == '+' {
        t.skip(1)
    } else {
        t
    }
}

/// The number that `str::parse::<usize>` reads from `t`: an optional `+`
/// and then one or more decimal digits, of a value that fits in `usize`.
pub open spec fn usize_value(t: Seq<char>) -> Option<nat> {
    let d = unsigned_digits(t);
    if d.len() > 0 && (forall|i: int| 0 <= i < d.len() ==> is_digit(#[trigger] d[i])) && digits_value(d)
        <= usize::MAX {
        Some(digits_value(d))
    } else {
        None
    }
}

proof fn lemma_digits_grow(d: Seq<char>, i: int)
    requires
        0 <= i <= d.len(),
        forall|k: int| 0 <= k < d.len() ==> is_digit(#[trigger] d[k]),
    ensures
        digits_value(d.take(i)) <= digits_value(d),
    decreases d.len() - i,
{
    if i < d.len() {
        lemma_digits_grow(d, i + 1);
        assert(d.take(i + 1).drop_last() =~= d.take(i));
    } else {
        assert(d.take(i) =~= d);
    }
}

/// Reads a `usize` as `str::parse::<usize>` does.
pub fn parse_usize(s: &str) -> (r: Option<usize>)
    ensures
        match usize_value(s@) {
            Some(v) => r == Some(v as usize),
            None => r is None,
        },
{
    let n = s.unicode_len();
    let ghost t = s@;
    let from: usize = if n > 0 && s.get_char(0) == '+' {
        1
    } else {
        0
    };
    let ghost d = unsigned_digits(t);
    proof {
        assert(d =~= t.subrange(from as int, n as int));
    }
    if from == n {
        return None;
    }
    let mut acc: usize = 0;
    let mut i: usize = from;
    while i < n
        invariant
            n == t.len(),
            t == s@,
            d == t.subrange(from as int, n as int),
            d == unsigned_digits(t),
            from <= i <= n,
            forall|k: int| 0 <= k < i - from ==> is_digit(#[trigger] d[k]),
            acc as nat == digits_value(d.take(i - from)),
        decreases n - i,
    {
        let c = s.get_char(i);
        let ghost k = i - from;
        proof {
            assert(d[k] == c);
            assert(d.take(k + 1).drop_last() =~= d.take(k));
            assert(d.take(k + 1).last() == c);
        }
        let u = c as u32;
        if u < 48 || u > 57 {
            proof {
                assert(!is_digit(d[k]));
            }
            return None;
        }
        let digit = (u - 48) as usize;
        proof {
            assert(digits_value(d.take(k + 1)) == acc * 10 + digit);
        }
        if acc > (usize::MAX - digit) / 10 {
            proof {
                assert(acc * 10 + digit > usize::MAX) by (nonlinear_arith)
                    requires
                        acc > (usize::MAX - digit) / 10,
                        digit <= 9,
                ;
                if forall|m: int| 0 <= m < d.len() ==> is_digit(#[trigger] d[m]) {
                    lemma_digits_grow(d, k + 1);
                }
            }
            return None;
        }
        acc = acc * 10 + digit;
        i = i + 1;
    }
    proof {
        assert(d.take(n - from) =~= d);
    }
    Some(acc)
}

/// The character of a decimal digit.
pub open spec fn digit_char(d: nat) -> char {
    if d == 0 {
        '0'
    } else if d == 1 {
        '1'
    } else if d == 2 {
        '2'
    } else if d == 3 {
        '3'
    } else if d == 4 {
        '4'
    } else if d == 5 {
        '5'
    } else if d == 6 {
        '6'
    } else if d == 7 {
        '7'
    } else if d == 8 {
        '8'
    } else {
        '9'
    }
}

/// The decimal digits of `n`, as `usize::to_string` writes them.
pub open spec fn decimal(n: nat) -> Seq<char>
    decreases n,
{
    if n < 10 {
        seq![digit_char(n)]
    } else {
        decimal(n / 10).push(digit_char(n % 10))
    }
}

fn digit_text(d: usize) -> (r: String)
    requires
        d < 10,
    ensures
        r@ == seq![digit_char(d as nat)],
{
    let all = "0123456789";
    proof {
        reveal_strlit("0123456789");
    }
    let r = piece(all, d, d + 1);
    assert(r@ =~= seq![digit_char(d as nat)]);
    r
}

/// The decimal digits of `n`.
pub fn decimal_text(n: usize) -> (r: String)
    ensures
        r@ == decimal(n as nat),
{
    if n < 10 {
        return digit_text(n);
    }
    let mut s = String::new();
    let mut m: usize = n;
    while m > 0
        invariant
            m > 0 ==> decimal(n as nat) == decimal(m as nat) + s@,
            m == 0 ==> decimal(n as nat) == s@,
            n >= 10,
            m <= n,
            m == n ==> s@.len() == 0,
        decreases m,
    {
        let d = m % 10;
        let ghost s0 = s@;
        let ghost m0 = m;
        s = joined(digit_text(d).as_str(), s.as_str());
        m = m / 10;
        proof {
            if m0 == n {
                assert(s0 =~= Seq::<char>::empty());
            }
            if m0 < 10 {
                assert(decimal(m0 as nat) == seq![digit_char(m0 as nat)]);
                assert(decimal(n as nat) =~= s@);
            } else {
                assert(decimal(m0 as nat) == decimal(m as nat).push(digit_char(d as nat)));
                assert(decimal(n as nat) =~= decimal(m as nat) + s@);
            }
        }
    }
    s
}

} // verus!
