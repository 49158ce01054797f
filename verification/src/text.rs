use vstd::prelude::*;

verus! {

broadcast use vstd::string::group_string_axioms;

/// The characters of `s`, in order.
pub fn chars_of(s: &str) -> (v: Vec<char>)
    ensures v@ == s@,
{
    let mut v: Vec<char> = Vec::new();
    for c in it: s.chars()
        invariant
            v@ == it.seq().take(it.index()),
            it.seq() == s@,
    {
        v.push(c);
    }
    v
}

/// Appends `c` to `s` (std's `String::push`).
#[verifier::external_body]
fn push_char(s: &mut String, c: char)
    ensures final(s)@ == old(s)@.push(c),
{
    s.push(c);
}

/// The string made of the characters of `chars`, in order.
pub fn string_from_chars(chars: &[char]) -> (s: String)
    ensures s@ == chars@,
{
    let mut s = String::new();
    for i in 0..chars.len()
        invariant s@ == chars@.take(i as int),
    {
        push_char(&mut s, chars[i]);
        assert(chars@.take(i + 1) == chars@.take(i as int).push(chars@[i as int]));
    }
    assert(chars@.take(chars@.len() as int) == chars@);
    s
}

} // verus!

verus! {

/// Splits `s` at every character in `seps`, as `str::split` does with a set of
/// characters: `n` separators give `n + 1` pieces, empty pieces included.
pub open spec fn split_by(s: Seq<char>, seps: Set<char>) -> Seq<Seq<char>>
    decreases s.len(),
{
    if s.len() == 0 {
        seq![Seq::empty()]
    } else {
        let parts = split_by(s.drop_last(), seps);
        if seps.contains(s.last()) {
            parts.push(Seq::empty())
        } else {
            parts.update(parts.len() - 1, parts.last().push(s.last()))
        }
    }
}

pub proof fn lemma_split_by_nonempty(s: Seq<char>, seps: Set<char>)
    ensures split_by(s, seps).len() >= 1,
    decreases s.len(),
{
    if s.len() > 0 {
        lemma_split_by_nonempty(s.drop_last(), seps);
    }
}

/// Splits `s` at every character of `seps` (the pieces as vectors).
pub fn split_chars(s: &[char], seps: &[char]) -> (parts: Vec<Vec<char>>)
    ensures parts.deep_view() == split_by(s@, seps@.to_set()),
{
    let ghost sep_set = seps@.to_set();
    let mut parts: Vec<Vec<char>> = Vec::new();
    let mut cur: Vec<char> = Vec::new();
    for i in 0..s.len()
        invariant
            sep_set == seps@.to_set(),
            parts.deep_view().push(cur@) == split_by(s@.take(i as int), sep_set),
    {
        let c = s[i];
        let is_sep = contains_char(seps, c);
        proof {
            assert(s@.take(i + 1).drop_last() == s@.take(i as int));
            lemma_split_by_nonempty(s@.take(i as int), sep_set);
        }
        let ghost before = parts.deep_view();
        if is_sep {
            let done = cur;
            assert(done.deep_view() =~= done@);
            parts.push(done);
            cur = Vec::new();
            assert(parts.deep_view() =~= before.push(done@));
        } else {
            cur.push(c);
            assert(parts.deep_view() =~= before);
        }
        proof {
            assert(parts.deep_view().push(cur@) =~= split_by(s@.take(i + 1), sep_set));
        }
    }
    assert(s@.take(s@.len() as int) == s@);
    let ghost before = parts.deep_view();
    let last = cur;
    assert(last.deep_view() =~= last@);
    parts.push(last);
    assert(parts.deep_view() =~= before.push(last@));
    parts
}

/// Whether `c` occurs in `cs`.
pub fn contains_char(cs: &[char], c: char) -> (r: bool)
    ensures r == cs@.contains(c), r == cs@.to_set().contains(c),
{
    for i in 0..cs.len()
        invariant forall|j: int| 0 <= j < i ==> cs@[j] != c,
    {
        if cs[i] == c {
            assert(cs@.to_set().contains(cs@[i as int]));
            return true;
        }
    }
    false
}

pub open spec fn is_digit(c: char) -> bool {
    '0' <= c <= '9'
}

pub open spec fn all_digits(s: Seq<char>) -> bool {
    forall|i: int| 0 <= i < s.len() ==> is_digit(#[trigger] s[i])
}

pub open spec fn digit_value(c: char) -> nat {
    (c as int - '0' as int) as nat
}

/// The number that the decimal digits `s` write.
pub open spec fn digits_value(s: Seq<char>) -> nat
    decreases s.len(),
{
    if s.len() == 0 {
        0
    } else {
        digits_value(s.drop_last()) * 10 + digit_value(s.last())
    }
}

/// What `str::parse` gives for an unsigned integer type whose largest value
/// is `max`: an optional `+`, then at least one ASCII digit, and a value that
/// fits; `None` for anything else.
pub open spec fn parse_unsigned(s: Seq<char>, max: nat) -> Option<nat> {
    let digits = if s.len() > 0 && s[0] == '+' { s.drop_first() } else { s };
    if digits.len() > 0 && all_digits(digits) && digits_value(digits) <= max {
        Some(digits_value(digits))
    } else {
        None
    }
}

proof fn lemma_digits_value_prefix(s: Seq<char>, i: int)
    requires 0 <= i <= s.len(),
    ensures digits_value(s.take(i)) <= digits_value(s),
    decreases s.len(),
{
    if i < s.len() {
        assert(s.drop_last().take(i) == s.take(i));
        lemma_digits_value_prefix(s.drop_last(), i);
    } else {
        assert(s.take(i) == s);
    }
}

/// Parses `s` as `str::parse` parses an unsigned integer no larger than `max`.
pub fn parse_decimal(s: &[char], max: u64) -> (r: Option<u64>)
    ensures
        match parse_unsigned(s@, max as nat) {
            Some(v) => r == Some(v as u64),
            None => r is None,
        },
{
    let start: usize = if s.len() > 0 && s[0] == '+' { 1 } else { 0 };
    let ghost digits = if s@.len() > 0 && s@[0] == '+' { s@.drop_first() } else { s@ };
    assert(digits == s@.subrange(start as int, s@.len() as int));
    if start >= s.len() {
        return None;
    }
    let mut acc: u64 = 0;
    let mut i = start;
    while i < s.len()
        invariant
            start <= i <= s.len(),
            digits == s@.subrange(start as int, s@.len() as int),
            digits == (if s@.len() > 0 && s@[0] == '+' { s@.drop_first() } else { s@ }),
            acc as nat == digits_value(digits.take(i - start)),
            acc <= max,
            forall|j: int| 0 <= j < i - start ==> is_digit(#[trigger] digits[j]),
        decreases s.len() - i,
    {
        let c = s[i];
        if !('0' <= c && c <= '9') {
            assert(!is_digit(digits[i - start]));
            return None;
        }
        let d: u64 = (c as u64) - ('0' as u64);
        proof {
            assert(digits.take(i + 1 - start).drop_last() == digits.take(i - start));
            lemma_digits_value_prefix(digits, i + 1 - start);
        }
        if d > max || acc > (max - d) / 10 {
            assert(acc * 10 + d > max) by (nonlinear_arith)
                requires d > max || acc > (max - d) / 10, d <= 9;
            return None;
        }
        assert(acc * 10 + d <= max) by (nonlinear_arith)
            requires acc <= (max - d) / 10, d <= 9, max >= 0;
        acc = acc * 10 + d;
        i = i + 1;
    }
    assert(digits.take(i - start) == digits);
    Some(acc)
}

} // verus!

verus! {

/// The length in bytes of the UTF-8 encoding of `c`.
pub open spec fn char_utf8_width(c: char) -> nat {
    if (c as u32) <= 0x7F {
        1
    } else if (c as u32) <= 0x7FF {
        2
    } else if (c as u32) <= 0xFFFF {
        3
    } else {
        4
    }
}

proof fn lemma_encode_utf8_push(s: Seq<char>, c: char)
    ensures
        vstd::utf8::encode_utf8(s.push(c)).len() == vstd::utf8::encode_utf8(s).len()
            + char_utf8_width(c),
    decreases s.len(),
{
    broadcast use vstd::utf8::char_is_scalar;
    if s.len() == 0 {
        assert(s.push(c).drop_first() =~= Seq::<char>::empty());
        assert(s.push(c)[0] == c);
        assert(vstd::utf8::encode_utf8(Seq::<char>::empty()).len() == 0);
        assert(vstd::utf8::is_scalar(c as u32));
        assert(vstd::utf8::encode_scalar(c as u32).len() == char_utf8_width(c));
    } else {
        assert(s.push(c).drop_first() =~= s.drop_first().push(c));
        lemma_encode_utf8_push(s.drop_first(), c);
    }
}

/// Whether the UTF-8 encoding of `chars` is exactly `n` bytes long, as
/// `str::len` counts them.
pub fn utf8_len_is(chars: &[char], n: usize) -> (r: bool)
    ensures r == (vstd::utf8::encode_utf8(chars@).len() == n),
{
    let mut total: usize = 0;
    let mut i: usize = 0;
    while i < chars.len()
        invariant
            i <= chars.len(),
            total == vstd::utf8::encode_utf8(chars@.take(i as int)).len(),
            total <= n,
        decreases chars.len() - i,
    {
        let c = chars[i];
        let w: usize = if (c as u32) <= 0x7F {
            1
        } else if (c as u32) <= 0x7FF {
            2
        } else if (c as u32) <= 0xFFFF {
            3
        } else {
            4
        };
        proof {
            assert(chars@.take(i + 1) =~= chars@.take(i as int).push(c));
            lemma_encode_utf8_push(chars@.take(i as int), c);
        }
        if w > n - total {
            proof {
                lemma_encode_utf8_prefix(chars@, i + 1);
            }
            return false;
        }
        total = total + w;
        i = i + 1;
    }
    assert(chars@.take(i as int) =~= chars@);
    total == n
}

proof fn lemma_encode_utf8_prefix(s: Seq<char>, i: int)
    requires 0 <= i <= s.len(),
    ensures vstd::utf8::encode_utf8(s.take(i)).len() <= vstd::utf8::encode_utf8(s).len(),
    decreases s.len() - i,
{
    if i < s.len() {
        assert(s.take(i + 1) =~= s.take(i).push(s[i]));
        lemma_encode_utf8_push(s.take(i), s[i]);
        lemma_encode_utf8_prefix(s, i + 1);
    } else {
        assert(s.take(i) =~= s);
    }
}

} // verus!

verus! {

/// The order of strings: by their characters from the first on, a proper
/// prefix first. For UTF-8 this is the byte order that `str` compares by.
pub open spec fn text_lt(a: Seq<char>, b: Seq<char>) -> bool
    decreases a.len(),
{
    if a.len() == 0 {
        b.len() > 0
    } else if b.len() == 0 {
        false
    } else if a[0] != b[0] {
        a[0] < b[0]
    } else {
        text_lt(a.drop_first(), b.drop_first())
    }
}

/// `a` is `b` or comes before it.
pub open spec fn text_le(a: Seq<char>, b: Seq<char>) -> bool {
    !text_lt(b, a)
}

/// The order of strings is transitive.
pub proof fn lemma_text_lt_transitive(a: Seq<char>, b: Seq<char>, c: Seq<char>)
    requires text_lt(a, b), text_lt(b, c),
    ensures text_lt(a, c),
    decreases a.len(),
{
    if a.len() > 0 && b.len() > 0 && c.len() > 0 && a[0] == b[0] && b[0] == c[0] {
        lemma_text_lt_transitive(a.drop_first(), b.drop_first(), c.drop_first());
    }
}

/// Of two strings, one comes first unless they are equal.
pub proof fn lemma_text_lt_total(a: Seq<char>, b: Seq<char>)
    ensures text_lt(a, b) || text_lt(b, a) || a == b,
    decreases a.len(),
{
    if a.len() > 0 && b.len() > 0 && a[0] == b[0] {
        lemma_text_lt_total(a.drop_first(), b.drop_first());
        if a.drop_first() == b.drop_first() {
            assert(a =~= seq![a[0]] + a.drop_first());
            assert(b =~= seq![b[0]] + b.drop_first());
        }
    } else if a.len() == 0 && b.len() == 0 {
        assert(a =~= b);
    }
}

/// No string comes before itself.
pub proof fn lemma_text_lt_irreflexive(a: Seq<char>)
    ensures !text_lt(a, a),
    decreases a.len(),
{
    if a.len() > 0 {
        lemma_text_lt_irreflexive(a.drop_first());
    }
}

/// Whether `a` comes strictly before `b`.
pub fn text_less(a: &[char], b: &[char]) -> (r: bool)
    ensures r == text_lt(a@, b@),
{
    let mut i: usize = 0;
    assert(a@.skip(0) =~= a@);
    assert(b@.skip(0) =~= b@);
    while i < a.len() && i < b.len() && a[i] == b[i]
        invariant
            i <= a.len(),
            i <= b.len(),
            text_lt(a@, b@) == text_lt(a@.skip(i as int), b@.skip(i as int)),
        decreases a.len() - i,
    {
        assert(a@.skip(i as int).drop_first() =~= a@.skip(i + 1));
        assert(b@.skip(i as int).drop_first() =~= b@.skip(i + 1));
        i = i + 1;
    }
    if i < a.len() && i < b.len() {
        a[i] < b[i]
    } else {
        i == a.len() && i < b.len()
    }
}

} // verus!

verus! {

/// The character of the decimal digit `d`.
pub open spec fn digit_char(d: nat) -> char {
    (d + 48) as char
}

/// The decimal digits of `n`, most significant first, with no leading zero.
pub open spec fn decimal_digits(n: nat) -> Seq<char>
    decreases n,
{
    if n < 10 {
        seq![digit_char(n)]
    } else {
        decimal_digits(n / 10).push(digit_char(n % 10))
    }
}

/// The decimal digits of `n`, with zeros in front up to `width` characters.
pub open spec fn zero_padded(n: nat, width: nat) -> Seq<char> {
    let d = decimal_digits(n);
    if d.len() < width {
        Seq::new((width - d.len()) as nat, |i: int| '0') + d
    } else {
        d
    }
}

/// Appends the decimal digits of `n` to `out`.
pub fn push_digits(out: &mut Vec<char>, n: u64)
    ensures final(out)@ == old(out)@ + decimal_digits(n as nat),
    decreases n,
{
    if n >= 10 {
        push_digits(out, n / 10);
    }
    let d: u64 = n % 10;
    let c: char = ((d + 48) as u8) as char;
    assert(c == digit_char(d as nat));
    out.push(c);
}

/// Appends `n` in decimal, with zeros in front up to `width` characters.
pub fn push_zero_padded(out: &mut Vec<char>, n: u64, width: usize)
    ensures final(out)@ == old(out)@ + zero_padded(n as nat, width as nat),
{
    let mut digits: Vec<char> = Vec::new();
    push_digits(&mut digits, n);
    assert(digits@ =~= decimal_digits(n as nat));
    let count = digits.len();
    let ghost start = out@;
    if count < width {
        let mut k: usize = count;
        while k < width
            invariant
                count <= k <= width,
                out@ == start + Seq::new((k - count) as nat, |i: int| '0'),
            decreases width - k,
        {
            out.push('0');
            k = k + 1;
            assert(out@ =~= start + Seq::new((k - count) as nat, |i: int| '0'));
        }
    }
    out.append(&mut digits);
    assert(out@ =~= start + zero_padded(n as nat, width as nat));
}

} // verus!

verus! {

/// The characters that `char::is_whitespace` accepts: those with the Unicode
/// property White_Space.
pub open spec fn is_space(c: char) -> bool {
    ||| '\u{9}' <= c <= '\u{D}'
    ||| c == ' '
    ||| c == '\u{85}'
    ||| c == '\u{A0}'
    ||| c == '\u{1680}'
    ||| '\u{2000}' <= c <= '\u{200A}'
    ||| c == '\u{2028}'
    ||| c == '\u{2029}'
    ||| c == '\u{202F}'
    ||| c == '\u{205F}'
    ||| c == '\u{3000}'
}

/// Whether `c` is white space.
pub fn is_space_char(c: char) -> (r: bool)
    ensures r == is_space(c),
{
    ('\u{9}' <= c && c <= '\u{D}') || c == ' ' || c == '\u{85}' || c == '\u{A0}' || c == '\u{1680}'
        || ('\u{2000}' <= c && c <= '\u{200A}') || c == '\u{2028}' || c == '\u{2029}'
        || c == '\u{202F}' || c == '\u{205F}' || c == '\u{3000}'
}

} // verus!

verus! {

/// The white-space characters.
pub open spec fn spaces() -> Set<char> {
    Set::new(|c: char| is_space(c))
}

/// `parts` without its empty pieces.
pub open spec fn drop_empty(parts: Seq<Seq<char>>) -> Seq<Seq<char>>
    decreases parts.len(),
{
    if parts.len() == 0 {
        Seq::empty()
    } else {
        let rest = drop_empty(parts.drop_last());
        if parts.last().len() > 0 { rest.push(parts.last()) } else { rest }
    }
}

/// The words of `s`, as `str::split_whitespace` gives them: the pieces
/// between white space, empty ones left out.
pub open spec fn words(s: Seq<char>) -> Seq<Seq<char>> {
    drop_empty(split_by(s, spaces()))
}

/// The words of `s`.
pub fn split_words(s: &[char]) -> (w: Vec<Vec<char>>)
    ensures w.deep_view() == words(s@),
{
    let mut done: Vec<Vec<char>> = Vec::new();
    let mut cur: Vec<char> = Vec::new();
    proof {
        assert(s@.take(0) =~= Seq::<char>::empty());
        assert(split_by(Seq::<char>::empty(), spaces()).drop_last() =~= Seq::<Seq<char>>::empty());
        assert(done.deep_view() =~= Seq::<Seq<char>>::empty());
    }
    for i in 0..s.len()
        invariant
            done.deep_view() == drop_empty(split_by(s@.take(i as int), spaces()).drop_last()),
            cur@ == split_by(s@.take(i as int), spaces()).last(),
            split_by(s@.take(i as int), spaces()).len() >= 1,
    {
        let c = s[i];
        let space = is_space_char(c);
        let ghost prev = split_by(s@.take(i as int), spaces());
        assert(s@.take(i + 1).drop_last() =~= s@.take(i as int));
        assert(s@.take(i + 1).last() == c);
        if space {
            if cur.len() > 0 {
                let ghost before = done.deep_view();
                let word = cur;
                assert(word.deep_view() =~= word@);
                done.push(word);
                assert(done.deep_view() =~= before.push(word@));
            }
            cur = Vec::new();
            assert(split_by(s@.take(i + 1), spaces()) == prev.push(Seq::empty()));
            assert(prev.push(Seq::<char>::empty()).drop_last() =~= prev);
            assert(prev.drop_last().push(prev.last()) =~= prev);
        } else {
            cur.push(c);
            assert(split_by(s@.take(i + 1), spaces()).drop_last() =~= prev.drop_last());
        }
    }
    assert(s@.take(s@.len() as int) =~= s@);
    let ghost parts = split_by(s@, spaces());
    assert(parts.drop_last().push(parts.last()) =~= parts);
    if cur.len() > 0 {
        let ghost before = done.deep_view();
        let word = cur;
        assert(word.deep_view() =~= word@);
        done.push(word);
        assert(done.deep_view() =~= before.push(word@));
    }
    done
}

/// Whether `a` and `b` hold the same characters.
pub fn same_chars(a: &[char], b: &[char]) -> (r: bool)
    ensures r == (a@ == b@),
{
    if a.len() != b.len() {
        return false;
    }
    for i in 0..a.len()
        invariant
            a@.len() == b@.len(),
            forall|j: int| 0 <= j < i ==> a@[j] == b@[j],
    {
        if a[i] != b[i] {
            return false;
        }
    }
    assert(a@ =~= b@);
    true
}

} // verus!

verus! {

/// The decimal digits of `n` are digits, and write `n`.
pub proof fn lemma_decimal_digits(n: nat)
    ensures
        decimal_digits(n).len() >= 1,
        all_digits(decimal_digits(n)),
        digits_value(decimal_digits(n)) == n,
        n < 10 ==> decimal_digits(n).len() == 1,
        n < 100 ==> decimal_digits(n).len() <= 2,
        n < 1000 ==> decimal_digits(n).len() <= 3,
        n < 10000 ==> decimal_digits(n).len() <= 4,
    decreases n,
{
    if n < 10 {
        let d = decimal_digits(n);
        assert(d.drop_last() =~= Seq::<char>::empty());
        assert(digits_value(Seq::<char>::empty()) == 0);
        assert(digit_value(digit_char(n)) == n);
    } else {
        lemma_decimal_digits(n / 10);
        let d = decimal_digits(n);
        assert(d.drop_last() == decimal_digits(n / 10));
        assert(d.last() == digit_char(n % 10));
        assert(digit_value(digit_char(n % 10)) == n % 10);
        assert(n == (n / 10) * 10 + n % 10);
        assert(digits_value(d) == digits_value(d.drop_last()) * 10 + digit_value(d.last()));
        assert forall|i: int| 0 <= i < d.len() implies is_digit(#[trigger] d[i]) by {
            if i < d.len() - 1 {
                assert(d[i] == decimal_digits(n / 10)[i]);
            }
        }
    }
}

/// Zeros in front do not change the number that digits write.
pub proof fn lemma_leading_zeros(k: nat, s: Seq<char>)
    ensures digits_value(Seq::new(k, |i: int| '0') + s) == digits_value(s),
    decreases s.len() + k,
{
    let z = Seq::new(k, |i: int| '0');
    if s.len() == 0 {
        assert(z + s =~= z);
        if k > 0 {
            assert(z.drop_last() =~= Seq::new((k - 1) as nat, |i: int| '0'));
            lemma_leading_zeros((k - 1) as nat, Seq::empty());
            assert(Seq::new((k - 1) as nat, |i: int| '0') + Seq::<char>::empty()
                =~= Seq::new((k - 1) as nat, |i: int| '0'));
        }
    } else {
        assert((z + s).drop_last() =~= z + s.drop_last());
        lemma_leading_zeros(k, s.drop_last());
    }
}

/// `n` padded with zeros to width `w` has width `w`, is digits, and writes `n`.
pub proof fn lemma_zero_padded(n: nat, w: nat)
    requires decimal_digits(n).len() <= w,
    ensures
        zero_padded(n, w).len() == w,
        all_digits(zero_padded(n, w)),
        digits_value(zero_padded(n, w)) == n,
{
    lemma_decimal_digits(n);
    let d = decimal_digits(n);
    if d.len() < w {
        let k = (w - d.len()) as nat;
        lemma_leading_zeros(k, d);
        let p = Seq::new(k, |i: int| '0') + d;
        assert forall|i: int| 0 <= i < p.len() implies is_digit(#[trigger] p[i]) by {
            if i >= k {
                assert(p[i] == d[i - k]);
            }
        }
    }
}

/// What digits that fill their width read as.
pub proof fn lemma_parse_digits(s: Seq<char>, max: nat)
    requires s.len() > 0, all_digits(s), digits_value(s) <= max,
    ensures parse_unsigned(s, max) == Some(digits_value(s)),
{
    assert(is_digit(s[0]));
}

/// Splitting text with no separator in its tail only lengthens the last piece.
pub proof fn lemma_split_plain_tail(x: Seq<char>, y: Seq<char>, seps: Set<char>)
    requires forall|i: int| 0 <= i < y.len() ==> !seps.contains(#[trigger] y[i]),
    ensures
        split_by(x + y, seps) == split_by(x, seps).update(
            split_by(x, seps).len() - 1,
            split_by(x, seps).last() + y,
        ),
    decreases y.len(),
{
    lemma_split_by_nonempty(x, seps);
    if y.len() == 0 {
        assert(x + y =~= x);
        assert(split_by(x, seps).last() + y =~= split_by(x, seps).last());
        assert(split_by(x, seps).update(split_by(x, seps).len() - 1, split_by(x, seps).last())
            =~= split_by(x, seps));
    } else {
        lemma_split_plain_tail(x, y.drop_last(), seps);
        assert((x + y).drop_last() =~= x + y.drop_last());
        assert((x + y).last() == y.last());
        assert(split_by(x, seps).last() + y.drop_last() + seq![y.last()] =~= split_by(x, seps).last() + y);
        assert((split_by(x, seps).last() + y.drop_last()).push(y.last()) =~= split_by(x, seps).last() + y);
    }
}

/// Splitting text that ends in a separator adds an empty last piece.
pub proof fn lemma_split_sep_tail(x: Seq<char>, c: char, seps: Set<char>)
    requires seps.contains(c),
    ensures split_by(x + seq![c], seps) == split_by(x, seps).push(Seq::empty()),
{
    assert((x + seq![c]).drop_last() =~= x);
    assert((x + seq![c]).last() == c);
}

} // verus!

verus! {

/// Comparing two texts whose first parts have the same length: the first
/// parts decide unless they are equal, and then the rest decide.
pub proof fn lemma_text_lt_concat(a1: Seq<char>, a2: Seq<char>, b1: Seq<char>, b2: Seq<char>)
    requires a1.len() == b1.len(),
    ensures text_lt(a1 + a2, b1 + b2) == (if a1 == b1 { text_lt(a2, b2) } else { text_lt(a1, b1) }),
    decreases a1.len(),
{
    if a1.len() == 0 {
        assert(a1 + a2 =~= a2);
        assert(b1 + b2 =~= b2);
        assert(a1 =~= b1);
    } else {
        assert((a1 + a2)[0] == a1[0]);
        assert((b1 + b2)[0] == b1[0]);
        if a1[0] == b1[0] {
            lemma_text_lt_concat(a1.drop_first(), a2, b1.drop_first(), b2);
            assert((a1 + a2).drop_first() =~= a1.drop_first() + a2);
            assert((b1 + b2).drop_first() =~= b1.drop_first() + b2);
            if a1.drop_first() == b1.drop_first() {
                assert forall|i: int| 0 <= i < a1.len() implies a1[i] == b1[i] by {
                    if i > 0 {
                        assert(a1[i] == a1.drop_first()[i - 1]);
                        assert(b1[i] == b1.drop_first()[i - 1]);
                    }
                }
                assert(a1 =~= b1);
            } else {
                assert(a1 != b1);
            }
        } else {
            assert(a1 != b1);
        }
    }
}

/// Ten to the power `n`.
pub open spec fn pow10(n: nat) -> nat
    decreases n,
{
    if n == 0 { 1 } else { 10 * pow10((n - 1) as nat) }
}

/// Digits write a number below ten to the power of their count.
pub proof fn lemma_digits_value_bound(s: Seq<char>)
    requires all_digits(s),
    ensures digits_value(s) < pow10(s.len()),
    decreases s.len(),
{
    if s.len() > 0 {
        assert(all_digits(s.drop_last())) by {
            assert forall|i: int| 0 <= i < s.drop_last().len() implies is_digit(#[trigger] s.drop_last()[i]) by {
                assert(s.drop_last()[i] == s[i]);
            }
        }
        lemma_digits_value_bound(s.drop_last());
        assert(is_digit(s[s.len() - 1]));
    }
}

/// Digit texts of the same length compare as the numbers they write.
pub proof fn lemma_digits_order(s: Seq<char>, t: Seq<char>)
    requires s.len() == t.len(), all_digits(s), all_digits(t),
    ensures
        text_lt(s, t) <==> digits_value(s) < digits_value(t),
        s == t <==> digits_value(s) == digits_value(t),
    decreases s.len(),
{
    if s.len() == 0 {
        assert(s =~= t);
    } else {
        let s1 = s.drop_last();
        let t1 = t.drop_last();
        assert(all_digits(s1)) by {
            assert forall|i: int| 0 <= i < s1.len() implies is_digit(#[trigger] s1[i]) by {
                assert(s1[i] == s[i]);
            }
        }
        assert(all_digits(t1)) by {
            assert forall|i: int| 0 <= i < t1.len() implies is_digit(#[trigger] t1[i]) by {
                assert(t1[i] == t[i]);
            }
        }
        lemma_digits_order(s1, t1);
        assert(s1 + seq![s.last()] =~= s);
        assert(t1 + seq![t.last()] =~= t);
        lemma_text_lt_concat(s1, seq![s.last()], t1, seq![t.last()]);
        assert(is_digit(s[s.len() - 1]) && is_digit(t[t.len() - 1]));
        let c = s.last();
        let d = t.last();
        assert(seq![c].drop_first() =~= Seq::<char>::empty());
        assert(seq![d].drop_first() =~= Seq::<char>::empty());
        assert(seq![c][0] == c && seq![d][0] == d);
        assert(!text_lt(Seq::<char>::empty(), Seq::<char>::empty()));
        assert(text_lt(seq![c], seq![d]) == (c < d));
        if s1 == t1 {
            if c == d {
                assert(s =~= t);
            }
        } else {
            assert(s != t);
        }
    }
}

/// A digit text is its number padded back to its length.
pub proof fn lemma_padded_digits(s: Seq<char>)
    requires
        all_digits(s),
        decimal_digits(digits_value(s)).len() <= s.len(),
    ensures zero_padded(digits_value(s), s.len()) == s,
{
    lemma_zero_padded(digits_value(s), s.len());
    lemma_digits_order(zero_padded(digits_value(s), s.len()), s);
}

} // verus!
