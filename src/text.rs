//! Characters, decimal numbers and the splitting of text into tokens and lines.
use vstd::prelude::*;

verus! {

pub open spec fn is_digit(c: char) -> bool {
    '0' <= c && c <= '9'
}

/// The digit that a character stands for.
pub open spec fn digit_value(c: char) -> nat {
    (c as int - '0' as int) as nat
}

/// The character of a decimal digit.
pub open spec fn digit_char(d: nat) -> char {
    ((d + '0' as int) as u32) as char
}

/// The decimal digits of `n`, most significant first, without leading zeros.
pub open spec fn decimal(n: nat) -> Seq<char>
    decreases n,
{
    if n < 10 {
        seq![digit_char(n)]
    } else {
        decimal(n / 10).push(digit_char(n % 10))
    }
}

/// The number that a sequence of decimal digits denotes.
pub open spec fn digits_value(s: Seq<char>) -> nat
    decreases s.len(),
{
    if s.len() == 0 {
        0
    } else {
        digits_value(s.drop_last()) * 10 + digit_value(s.last())
    }
}

pub open spec fn all_digits(s: Seq<char>) -> bool {
    forall|i: int| 0 <= i < s.len() ==> is_digit(#[trigger] s[i])
}

/// An unsigned 32-bit integer in decimal, with an optional leading `+`.
pub open spec fn parse_u32(s: Seq<char>) -> Option<u32> {
    let d = if s.len() > 0 && s[0] == '+' { s.drop_first() } else { s };
    if d.len() > 0 && all_digits(d) && digits_value(d) <= u32::MAX {
        Some(digits_value(d) as u32)
    } else {
        None
    }
}

/// A text that can stand as the last token of a line: no space, no line break, and no
/// carriage return at its end (one there would be taken for part of a `\r\n` ending).
pub open spec fn is_token(s: Seq<char>) -> bool {
    &&& forall|i: int| 0 <= i < s.len() ==> #[trigger] s[i] != ' ' && s[i] != '\n'
    &&& !(s.len() > 0 && s.last() == '\r')
}

/// Cutting `s` at each `sep`: the pieces closed by a separator, and the open piece after the last.
pub open spec fn cut(s: Seq<char>, sep: char) -> (Seq<Seq<char>>, Seq<char>)
    decreases s.len(),
{
    if s.len() == 0 {
        (seq![], seq![])
    } else {
        let (done, cur) = cut(s.drop_last(), sep);
        if s.last() == sep {
            (done.push(cur), seq![])
        } else {
            (done, cur.push(s.last()))
        }
    }
}

/// The pieces between the separators: always at least one, possibly empty.
pub open spec fn split_on(s: Seq<char>, sep: char) -> Seq<Seq<char>> {
    cut(s, sep).0.push(cut(s, sep).1)
}

pub open spec fn strip_cr(l: Seq<char>) -> Seq<char> {
    if l.len() > 0 && l.last() == '\r' {
        l.drop_last()
    } else {
        l
    }
}

/// The lines of a text: pieces ended by `\n` (or `\r\n`), and a last piece without an
/// ending unless it is empty.
pub open spec fn lines_of(s: Seq<char>) -> Seq<Seq<char>> {
    let (done, cur) = cut(s, '\n');
    let closed = done.map_values(|l: Seq<char>| strip_cr(l));
    if cur.len() == 0 {
        closed
    } else {
        closed.push(cur)
    }
}

/// Relies on `String::push`: appends one character.
#[verifier::external_body]
pub(crate) fn push_char(s: &mut String, c: char)
    ensures
        final(s)@ == old(s)@.push(c),
{
    s.push(c)
}

/// Relies on `str::chars`: the characters of the text, in order.
#[verifier::external_body]
pub(crate) fn chars_of(s: &str) -> (r: Vec<char>)
    ensures
        r@ == s@,
{
    s.chars().collect()
}

/// Appends the characters of `v` to `s`.
pub(crate) fn push_chars(s: &mut String, v: &Vec<char>)
    ensures
        final(s)@ == old(s)@ + v@,
{
    let ghost start = s@;
    let mut i: usize = 0;
    while i < v.len()
        invariant
            i <= v@.len(),
            s@ == start + v@.take(i as int),
        decreases v@.len() - i,
    {
        push_char(s, v[i]);
        i = i + 1;
        assert(v@.take(i as int) =~= v@.take(i - 1).push(v@[i - 1]));
    }
    assert(v@.take(v@.len() as int) =~= v@);
}

pub(crate) fn string_of(v: &Vec<char>) -> (r: String)
    ensures
        r@ == v@,
{
    let mut s = String::new();
    push_chars(&mut s, v);
    s
}

pub open spec fn views(v: Seq<Vec<char>>) -> Seq<Seq<char>> {
    v.map_values(|x: Vec<char>| x@)
}

/// Cuts `s` at each `sep`.
pub(crate) fn cut_chars(s: &Vec<char>, sep: char) -> (r: (Vec<Vec<char>>, Vec<char>))
    ensures
        views(r.0@) == cut(s@, sep).0,
        r.1@ == cut(s@, sep).1,
{
    let mut done: Vec<Vec<char>> = Vec::new();
    let mut cur: Vec<char> = Vec::new();
    let mut i: usize = 0;
    while i < s.len()
        invariant
            i <= s@.len(),
            views(done@) == cut(s@.take(i as int), sep).0,
            cur@ == cut(s@.take(i as int), sep).1,
        decreases s@.len() - i,
    {
        let c = s[i];
        assert(s@.take(i + 1).drop_last() =~= s@.take(i as int));
        if c == sep {
            let ghost before = done@;
            done.push(cur);
            assert(views(done@) =~= views(before).push(cut(s@.take(i as int), sep).1));
            cur = Vec::new();
        } else {
            cur.push(c);
        }
        i = i + 1;
    }
    assert(s@.take(i as int) =~= s@);
    (done, cur)
}

/// The pieces of `s` between the separators `sep`.
pub(crate) fn split_chars(s: &Vec<char>, sep: char) -> (r: Vec<Vec<char>>)
    ensures
        views(r@) == split_on(s@, sep),
{
    let (mut done, cur) = cut_chars(s, sep);
    let ghost before = done@;
    done.push(cur);
    assert(views(done@) =~= views(before).push(cut(s@, sep).1));
    done
}

/// The lines of `s`, as `lines_of` describes them.
pub(crate) fn lines_chars(s: &Vec<char>) -> (r: Vec<Vec<char>>)
    ensures
        views(r@) == lines_of(s@),
{
    let (done, cur) = cut_chars(s, '\n');
    let ghost closed = cut(s@, '\n').0.map_values(|l: Seq<char>| strip_cr(l));
    let mut out: Vec<Vec<char>> = Vec::new();
    let mut i: usize = 0;
    while i < done.len()
        invariant
            i <= done@.len(),
            views(done@) == cut(s@, '\n').0,
            closed == cut(s@, '\n').0.map_values(|l: Seq<char>| strip_cr(l)),
            views(out@) == closed.take(i as int),
        decreases done@.len() - i,
    {
        let mut l = done[i].clone();
        assert(l@ == views(done@)[i as int]);
        if l.len() > 0 && l[l.len() - 1] == '\r' {
            l.pop();
            assert(l@ =~= strip_cr(views(done@)[i as int]));
        }
        assert(l@ == closed[i as int]);
        let ghost before = out@;
        out.push(l);
        assert(views(out@) =~= views(before).push(l@));
        assert(closed.take(i + 1) =~= closed.take(i as int).push(closed[i as int]));
        i = i + 1;
    }
    assert(closed.take(i as int) =~= closed);
    if cur.len() > 0 {
        let ghost before = out@;
        out.push(cur);
        assert(views(out@) =~= views(before).push(cut(s@, '\n').1));
    }
    out
}

/// Appends the decimal digits of `n` to `s`.
pub fn push_decimal(s: &mut String, n: u32)
    ensures
        final(s)@ == old(s)@ + decimal(n as nat),
    decreases n,
{
    if n >= 10 {
        push_decimal(s, n / 10);
    }
    let d = n % 10;
    let c = ((d + 48) as u8) as char;
    assert(c == digit_char((n % 10) as nat));
    push_char(s, c);
    proof {
        if n >= 10 {
            assert(decimal(n as nat) == decimal((n / 10) as nat).push(digit_char((n % 10) as nat)));
        }
    }
}

/// A value with a one-token text form: what a node of a graph can carry.
pub trait TextValue: Sized + View {
    /// The text form of a value.
    spec fn text_of(v: Self::V) -> Seq<char>;

    /// The value that a text denotes, if any.
    spec fn parse_text(t: Seq<char>) -> Option<Self::V>;

    fn to_text(&self) -> (r: String)
        ensures
            r@ == Self::text_of(self@),
    ;

    fn from_text(t: &str) -> (r: Option<Self>)
        ensures
            match r {
                Some(v) => Self::parse_text(t@) == Some(v@),
                None => Self::parse_text(t@) is None,
            },
    ;

    /// A value whose text form is a token reads back as itself.
    proof fn lemma_text_round_trip(v: Self::V)
        requires
            is_token(Self::text_of(v)),
        ensures
            Self::parse_text(Self::text_of(v)) == Some(v),
    ;
}

impl TextValue for String {
    open spec fn text_of(v: Seq<char>) -> Seq<char> {
        v
    }

    open spec fn parse_text(t: Seq<char>) -> Option<Seq<char>> {
        Some(t)
    }

    fn to_text(&self) -> (r: String) {
        self.clone()
    }

    fn from_text(t: &str) -> (r: Option<String>) {
        Some(t.to_owned())
    }

    proof fn lemma_text_round_trip(v: Seq<char>) {
    }
}

impl TextValue for u32 {
    open spec fn text_of(v: u32) -> Seq<char> {
        decimal(v as nat)
    }

    open spec fn parse_text(t: Seq<char>) -> Option<u32> {
        parse_u32(t)
    }

    fn to_text(&self) -> (r: String) {
        let mut s = String::new();
        push_decimal(&mut s, *self);
        s
    }

    fn from_text(t: &str) -> (r: Option<u32>) {
        parse_u32_chars(&chars_of(t))
    }

    proof fn lemma_text_round_trip(v: u32) {
        lemma_parse_decimal(v);
    }
}

/// Reads an unsigned 32-bit integer written in decimal.
pub fn parse_u32_chars(s: &Vec<char>) -> (r: Option<u32>)
    ensures
        r == parse_u32(s@),
{
    let start: usize = if s.len() > 0 && s[0] == '+' { 1 } else { 0 };
    let ghost d = if s@.len() > 0 && s@[0] == '+' { s@.drop_first() } else { s@ };
    assert(d =~= s@.skip(start as int));
    if start == s.len() {
        return None;
    }
    let mut acc: u32 = 0;
    let mut i: usize = start;
    while i < s.len()
        invariant
            start <= i <= s@.len(),
            d == s@.skip(start as int),
            d.len() > 0,
            parse_u32(s@) == (if all_digits(d) && digits_value(d) <= u32::MAX {
                Some(digits_value(d) as u32)
            } else {
                None
            }),
            all_digits(s@.subrange(start as int, i as int)),
            acc as nat == digits_value(s@.subrange(start as int, i as int)),
        decreases s@.len() - i,
    {
        let c = s[i];
        let ghost pre = s@.subrange(start as int, i as int);
        let ghost next = s@.subrange(start as int, i + 1);
        assert(next.drop_last() =~= pre);
        if !('0' <= c && c <= '9') {
            assert(!all_digits(d)) by {
                assert(d[i - start] == c);
                assert(!is_digit(d[i - start]));
            }
            assert(parse_u32(s@) is None);
            return None;
        }
        let v = (c as u32) - 48;
        assert(v as nat == digit_value(c));
        if acc > (u32::MAX - v) / 10 {
            proof {
                assert(digits_value(next) > u32::MAX) by (nonlinear_arith)
                    requires
                        digits_value(next) == acc * 10 + v,
                        acc > (u32::MAX - v) / 10,
                        v <= 9,
                ;
                if all_digits(d) {
                    lemma_digits_value_prefix(d, next.len() as int);
                    assert(d.take(next.len() as int) =~= next);
                }
                assert(parse_u32(s@) is None);
            }
            return None;
        }
        assert(acc * 10 + v <= u32::MAX) by (nonlinear_arith)
            requires
                acc <= (u32::MAX - v) / 10,
                v <= 9,
        ;
        acc = acc * 10 + v;
        i = i + 1;
    }
    assert(s@.subrange(start as int, i as int) =~= d);
    Some(acc)
}

/// A prefix of a sequence of digits denotes no more than the whole.
pub proof fn lemma_digits_value_prefix(d: Seq<char>, k: int)
    requires
        0 <= k <= d.len(),
        all_digits(d),
    ensures
        digits_value(d.take(k)) <= digits_value(d),
    decreases d.len() - k,
{
    if k < d.len() {
        lemma_digits_value_prefix(d, k + 1);
        assert(d.take(k + 1).drop_last() =~= d.take(k));
        assert(is_digit(d[k]));
        assert(digits_value(d.take(k)) <= digits_value(d.take(k)) * 10) by (nonlinear_arith);
    } else {
        assert(d.take(k) =~= d);
    }
}

/// The decimal form of a number is made of digits and denotes that number.
pub proof fn lemma_decimal(n: nat)
    ensures
        decimal(n).len() > 0,
        all_digits(decimal(n)),
        digits_value(decimal(n)) == n,
        decimal(n)[0] != '+',
        is_token(decimal(n)),
    decreases n,
{
    lemma_digit_char(n % 10);
    let d = decimal(n);
    assert(digits_value(d) == digits_value(d.drop_last()) * 10 + digit_value(d.last()));
    if n < 10 {
        assert(d.drop_last() =~= seq![]);
    } else {
        lemma_decimal(n / 10);
        assert(d.drop_last() =~= decimal(n / 10));
        assert(d[0] == decimal(n / 10)[0]);
    }
}

pub proof fn lemma_digit_char(d: nat)
    requires
        d < 10,
    ensures
        is_digit(digit_char(d)),
        digit_value(digit_char(d)) == d,
        digit_char(d) != '+',
{
    let c = digit_char(d);
    assert(c as int == d + 48);
}

/// Reading back the decimal form of a number gives that number.
pub proof fn lemma_parse_decimal(v: u32)
    ensures
        parse_u32(decimal(v as nat)) == Some(v),
{
    lemma_decimal(v as nat);
}

} // verus!
