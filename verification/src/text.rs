//! Small building blocks on texts and sequences: views of collections,
//! decimal numerals, fixed-width padding, the lexicographic order of texts,
//! and sequences without repetitions.

use vstd::prelude::*;

verus! {

/// The views of the elements of `s`, in order.
pub open spec fn views<T: View>(s: Seq<T>) -> Seq<T::V> {
    Seq::new(s.len(), |i: int| s[i]@)
}

/// The character that writes the digit `d`.
pub open spec fn digit_char(d: int) -> char {
    if d == 0 {
        '0'
    } else if d == 1 {
        '1'
    } else if d == 2 {
        '2'
    } else if d == 3 {
        '3'
    } else if d == 4 {
        '4'
    } else if d == 5 {
        '5'
    } else if d == 6 {
        '6'
    } else if d == 7 {
        '7'
    } else if d == 8 {
        '8'
    } else {
        '9'
    }
}

/// The decimal numeral of `n`, most significant digit first, without
/// leading zeros.
pub open spec fn decimal(n: nat) -> Seq<char>
    decreases n,
{
    if n < 10 {
        seq![digit_char(n as int)]
    } else {
        decimal(n / 10).push(digit_char((n % 10) as int))
    }
}

/// `count` spaces.
pub open spec fn spaces(count: nat) -> Seq<char> {
    Seq::new(count, |i: int| ' ')
}

/// `s` right-aligned in a field of `width` characters; longer text is kept whole.
pub open spec fn pad_left(s: Seq<char>, width: nat) -> Seq<char> {
    if s.len() >= width {
        s
    } else {
        spaces((width - s.len()) as nat) + s
    }
}

/// `s` left-aligned in a field of `width` characters; longer text is kept whole.
pub open spec fn pad_right(s: Seq<char>, width: nat) -> Seq<char> {
    if s.len() >= width {
        s
    } else {
        s + spaces((width - s.len()) as nat)
    }
}

/// `s` without repetitions: of equal elements the first stays, and what stays
/// keeps its order.
pub open spec fn distinct<A>(s: Seq<A>) -> Seq<A>
    decreases s.len(),
{
    if s.len() == 0 {
        Seq::empty()
    } else {
        let before = distinct(s.drop_last());
        if before.contains(s.last()) {
            before
        } else {
            before.push(s.last())
        }
    }
}

/// Every element of `s` is in `distinct(s)`.
pub proof fn lemma_distinct_keeps<A>(s: Seq<A>, k: int)
    requires
        0 <= k < s.len(),
    ensures
        distinct(s).contains(s[k]),
    decreases s.len(),
{
    let front = s.drop_last();
    let before = distinct(front);
    if k < s.len() - 1 {
        lemma_distinct_keeps(front, k);
        let j = before.index_of(s[k]);
        assert(distinct(s)[j] == s[k]);
    } else if !before.contains(s[k]) {
        assert(distinct(s)[before.len() as int] == s[k]);
    }
}

/// Every element of `distinct(s)` is in `s`.
pub proof fn lemma_distinct_within<A>(s: Seq<A>, j: int)
    requires
        0 <= j < distinct(s).len(),
    ensures
        s.contains(distinct(s)[j]),
    decreases s.len(),
{
    let front = s.drop_last();
    let before = distinct(front);
    if s.len() > 0 {
        if j < before.len() {
            lemma_distinct_within(front, j);
            let k = front.index_of(before[j]);
            assert(s[k] == before[j]);
        } else {
            assert(s[s.len() - 1] == distinct(s)[j]);
        }
    }
}

/// No element stands twice in `distinct(s)`.
pub proof fn lemma_distinct_no_duplicates<A>(s: Seq<A>)
    ensures
        distinct(s).no_duplicates(),
    decreases s.len(),
{
    if s.len() > 0 {
        lemma_distinct_no_duplicates(s.drop_last());
    }
}

/// The lexicographic order of texts by their characters, from position `k`
/// on: a text comes before every text that it starts.
pub open spec fn text_le_from(a: Seq<char>, b: Seq<char>, k: int) -> bool
    decreases a.len() - k,
{
    if k >= a.len() {
        true
    } else if k >= b.len() {
        false
    } else if a[k] != b[k] {
        a[k] < b[k]
    } else {
        text_le_from(a, b, k + 1)
    }
}

/// Whether `a` comes before `b`, or equals it, in lexicographic order.
pub open spec fn text_le(a: Seq<char>, b: Seq<char>) -> bool {
    text_le_from(a, b, 0)
}

/// Of two texts, one comes before the other or equals it.
pub proof fn lemma_text_le_total(a: Seq<char>, b: Seq<char>, k: int)
    requires
        0 <= k,
    ensures
        text_le_from(a, b, k) || text_le_from(b, a, k),
    decreases a.len() - k,
{
    if k < a.len() && k < b.len() && a[k] == b[k] {
        lemma_text_le_total(a, b, k + 1);
    }
}

/// The order of texts is transitive.
pub proof fn lemma_text_le_transitive(a: Seq<char>, b: Seq<char>, c: Seq<char>, k: int)
    requires
        0 <= k,
        text_le_from(a, b, k),
        text_le_from(b, c, k),
    ensures
        text_le_from(a, c, k),
    decreases a.len() - k,
{
    if k < a.len() && a[k] == b[k] && b[k] == c[k] {
        lemma_text_le_transitive(a, b, c, k + 1);
    }
}

/// Two texts that come before each other agree from position `k` on.
pub proof fn lemma_text_le_antisymmetric(a: Seq<char>, b: Seq<char>, k: int)
    requires
        0 <= k <= a.len(),
        k <= b.len(),
        text_le_from(a, b, k),
        text_le_from(b, a, k),
    ensures
        a.len() == b.len(),
        forall|j: int| k <= j < a.len() ==> a[j] == b[j],
    decreases a.len() - k,
{
    if k < a.len() {
        lemma_text_le_antisymmetric(a, b, k + 1);
    }
}

/// Whether `x` stands in `s` at exactly one position.
pub open spec fn occurs_once<A>(s: Seq<A>, x: A) -> bool {
    &&& s.contains(x)
    &&& forall|a: int, b: int|
        0 <= a < s.len() && 0 <= b < s.len() && s[a] == x && s[b] == x ==> a == b
}

/// Every element of `s` stands exactly once in `distinct(s)`.
pub proof fn lemma_distinct_once<A>(s: Seq<A>, k: int)
    requires
        0 <= k < s.len(),
    ensures
        occurs_once(distinct(s), s[k]),
{
    lemma_distinct_keeps(s, k);
    lemma_distinct_no_duplicates(s);
}

/// `String::push` of the standard library, taken on trust: after the call
/// the string holds what it held before, followed by the character `c`.
pub assume_specification[ String::push ](s: &mut String, c: char)
    ensures
        final(s)@ == old(s)@.push(c),
;

/// The text that the characters from `start` to `end` make.
pub fn string_of(chars: &Vec<char>, start: usize, end: usize) -> (out: String)
    requires
        start <= end <= chars.len(),
    ensures
        out@ == chars@.subrange(start as int, end as int),
{
    let mut out = String::new();
    let mut k: usize = start;
    while k < end
        invariant
            start <= k <= end <= chars.len(),
            out@ == chars@.subrange(start as int, k as int),
        decreases end - k,
    {
        out.push(chars[k]);
        k = k + 1;
        assert(out@ =~= chars@.subrange(start as int, k as int));
    }
    out
}

/// The characters of `s`, as a vector.
pub fn chars_of(s: &str) -> (out: Vec<char>)
    ensures
        out@ == s@,
{
    let mut out: Vec<char> = Vec::new();
    for c in it: s.chars()
        invariant
            out@ == it.seq().take(it.index() as int),
            it.seq() == s@,
    {
        out.push(c);
    }
    out
}

fn digit_str(d: usize) -> (out: &'static str)
    requires
        d < 10,
    ensures
        out@ == seq![digit_char(d as int)],
{
    proof {
        reveal_strlit("0");
        reveal_strlit("1");
        reveal_strlit("2");
        reveal_strlit("3");
        reveal_strlit("4");
        reveal_strlit("5");
        reveal_strlit("6");
        reveal_strlit("7");
        reveal_strlit("8");
        reveal_strlit("9");
    }
    let out = if d == 0 {
        "0"
    } else if d == 1 {
        "1"
    } else if d == 2 {
        "2"
    } else if d == 3 {
        "3"
    } else if d == 4 {
        "4"
    } else if d == 5 {
        "5"
    } else if d == 6 {
        "6"
    } else if d == 7 {
        "7"
    } else if d == 8 {
        "8"
    } else {
        "9"
    };
    assert(out@ =~= seq![digit_char(d as int)]);
    out
}

/// Appends the decimal numeral of `n` to `out`.
pub fn push_decimal(out: &mut String, n: usize)
    ensures
        final(out)@ == old(out)@ + decimal(n as nat),
    decreases n,
{
    if n < 10 {
        out.append(digit_str(n));
    } else {
        push_decimal(out, n / 10);
        out.append(digit_str(n % 10));
        assert(out@ =~= old(out)@ + decimal(n as nat));
    }
}

/// Appends `count` spaces to `out`.
pub fn push_spaces(out: &mut String, count: usize)
    ensures
        final(out)@ == old(out)@ + spaces(count as nat),
{
    proof {
        reveal_strlit(" ");
    }
    let mut i: usize = 0;
    assert(out@ =~= old(out)@ + spaces(0));
    while i < count
        invariant
            i <= count,
            out@ == old(out)@ + spaces(i as nat),
            " "@ == seq![' '],
        decreases count - i,
    {
        out.append(" ");
        i = i + 1;
        assert(out@ =~= old(out)@ + spaces(i as nat));
    }
}

/// The number of characters of `s`.
pub fn char_count(s: &str) -> (n: usize)
    ensures
        n == s@.len(),
{
    s.unicode_len()
}

/// Whether the text `a` comes before the text `b`, or equals it.
pub fn text_precedes(a: &str, b: &str) -> (out: bool)
    ensures
        out == text_le(a@, b@),
{
    let left = chars_of(a);
    let right = chars_of(b);
    let mut k: usize = 0;
    while k < left.len() && k < right.len() && left[k] == right[k]
        invariant
            k <= left.len(),
            k <= right.len(),
            text_le(left@, right@) == text_le_from(left@, right@, k as int),
        decreases left.len() - k,
    {
        k = k + 1;
    }
    if k >= left.len() {
        true
    } else if k >= right.len() {
        false
    } else {
        left[k] < right[k]
    }
}

/// Adds `s` to `out` unless `out` holds an equal text already.
pub fn push_unique(out: &mut Vec<String>, s: String)
    ensures
        views(final(out)@) == if views(old(out)@).contains(s@) {
            views(old(out)@)
        } else {
            views(old(out)@).push(s@)
        },
{
    let mut k: usize = 0;
    while k < out.len()
        invariant
            k <= out.len(),
            out@ == old(out)@,
            forall|j: int| 0 <= j < k ==> views(out@)[j] != s@,
        decreases out.len() - k,
    {
        if out[k] == s {
            assert(views(out@)[k as int] == s@);
            return ;
        }
        k = k + 1;
    }
    out.push(s);
    assert(views(out@) =~= views(old(out)@).push(s@));
}

} // verus!
