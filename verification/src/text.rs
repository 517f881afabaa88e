//! Text as sequences of characters: order, decimal numerals and splitting.

use vstd::prelude::*;

verus! {

/// How `a` stands to `b` from position `i` on, in the order of a dictionary
/// over code points: -1 where `a` comes first, 1 where `b` does, 0 where the
/// two agree to the end.
pub open spec fn text_rank_from(a: Seq<char>, b: Seq<char>, i: int) -> int
    decreases a.len() - i,
{
    if i < 0 {
        0
    } else if i >= a.len() {
        if i >= b.len() {
            0
        } else {
            -1
        }
    } else if i >= b.len() {
        1
    } else if (a[i] as int) < (b[i] as int) {
        -1
    } else if (a[i] as int) > (b[i] as int) {
        1
    } else {
        text_rank_from(a, b, i + 1)
    }
}

/// How `a` stands to `b` in the order of a dictionary over code points.
pub open spec fn text_rank(a: Seq<char>, b: Seq<char>) -> int {
    text_rank_from(a, b, 0)
}

/// Compares two texts in the order of a dictionary over code points.
pub fn compare_text(a: &str, b: &str) -> (r: i8)
    ensures
        r as int == text_rank(a@, b@),
{
    let la = a.unicode_len();
    let lb = b.unicode_len();
    let mut i: usize = 0;
    while i < la && i < lb
        invariant
            i <= la,
            i <= lb,
            la == a@.len(),
            lb == b@.len(),
            text_rank(a@, b@) == text_rank_from(a@, b@, i as int),
        decreases la - i,
    {
        let ca = a.get_char(i);
        let cb = b.get_char(i);
        if ca < cb {
            return -1;
        }
        if ca > cb {
            return 1;
        }
        i += 1;
    }
    if i < lb {
        -1
    } else if i < la {
        1
    } else {
        0
    }
}

/// Two texts have rank 0 exactly when they are the same text.
pub proof fn lemma_rank_zero_is_equality(a: Seq<char>, b: Seq<char>)
    ensures
        text_rank(a, b) == 0 <==> a == b,
{
    lemma_rank_zero_from(a, b, 0);
    if a == b {
    } else if text_rank(a, b) == 0 {
        assert(a =~= b);
    }
}

proof fn lemma_rank_zero_from(a: Seq<char>, b: Seq<char>, i: int)
    requires
        0 <= i <= a.len(),
        i <= b.len(),
    ensures
        text_rank_from(a, b, i) == 0 <==> (a.len() == b.len() && forall|j: int|
            i <= j < a.len() ==> a[j] == b[j]),
    decreases a.len() - i,
{
    if i < a.len() && i < b.len() {
        lemma_rank_zero_from(a, b, i + 1);
    }
}

/// Turning two texts round turns their rank round.
pub proof fn lemma_rank_turns(a: Seq<char>, b: Seq<char>, i: int)
    requires
        0 <= i,
    ensures
        text_rank_from(b, a, i) == -text_rank_from(a, b, i),
        -1 <= text_rank_from(a, b, i) <= 1,
    decreases a.len() - i,
{
    if i < a.len() && i < b.len() && a[i] == b[i] {
        lemma_rank_turns(a, b, i + 1);
    }
}

/// The order of texts is transitive: where `a` does not come after `b`, nor
/// `b` after `c`, `a` does not come after `c`; and it comes before `c` where
/// it comes before `b`, or `b` before `c`.
pub proof fn lemma_rank_chains(a: Seq<char>, b: Seq<char>, c: Seq<char>, i: int)
    requires
        0 <= i,
        text_rank_from(a, b, i) <= 0,
        text_rank_from(b, c, i) <= 0,
    ensures
        text_rank_from(a, c, i) <= 0,
        text_rank_from(a, b, i) < 0 || text_rank_from(b, c, i) < 0 ==> text_rank_from(a, c, i) < 0,
    decreases a.len() - i,
{
    if i < a.len() && i < b.len() && i < c.len() && a[i] == b[i] && b[i] == c[i] {
        lemma_rank_chains(a, b, c, i + 1);
    }
}

/// The character that writes the digit `d`.
pub open spec fn digit_char(d: int) -> char {
    if d == 0 {
        '0'
    } else if d == 1 {
        '1'
    } else if d == 2 {
        '2'
    } else if d == 3 {
        '3'
    } else if d == 4 {
        '4'
    } else if d == 5 {
        '5'
    } else if d == 6 {
        '6'
    } else if d == 7 {
        '7'
    } else if d == 8 {
        '8'
    } else {
        '9'
    }
}

/// The decimal numeral of `n`, without leading zeros.
pub open spec fn decimal(n: nat) -> Seq<char>
    decreases n,
{
    if n < 10 {
        seq![digit_char(n as int)]
    } else {
        decimal(n / 10).push(digit_char((n % 10) as int))
    }
}

fn digit_text(d: usize) -> (s: &'static str)
    requires
        d < 10,
    ensures
        s@ == seq![digit_char(d as int)],
{
    proof {
        reveal_strlit("0");
        reveal_strlit("1");
        reveal_strlit("2");
        reveal_strlit("3");
        reveal_strlit("4");
        reveal_strlit("5");
        reveal_strlit("6");
        reveal_strlit("7");
        reveal_strlit("8");
        reveal_strlit("9");
    }
    let s = if d == 0 {
        "0"
    } else if d == 1 {
        "1"
    } else if d == 2 {
        "2"
    } else if d == 3 {
        "3"
    } else if d == 4 {
        "4"
    } else if d == 5 {
        "5"
    } else if d == 6 {
        "6"
    } else if d == 7 {
        "7"
    } else if d == 8 {
        "8"
    } else {
        "9"
    };
    assert(s@ =~= seq![digit_char(d as int)]);
    s
}

/// Appends the decimal numeral of `n` to `out`.
pub fn push_decimal(out: &mut String, n: usize)
    ensures
        final(out)@ == old(out)@ + decimal(n as nat),
    decreases n,
{
    if n >= 10 {
        push_decimal(out, n / 10);
    }
    out.append(digit_text(n % 10));
    assert(final(out)@ =~= old(out)@ + decimal(n as nat));
}

/// Two numbers with the same decimal numeral are the same number.
pub proof fn lemma_decimal_injective(m: nat, n: nat)
    requires
        decimal(m) == decimal(n),
    ensures
        m == n,
    decreases m,
{
    if m < 10 && n < 10 {
        assert(decimal(m)[0] == digit_char(m as int));
        assert(decimal(n)[0] == digit_char(n as int));
    } else if m >= 10 && n >= 10 {
        let a = decimal(m / 10);
        let b = decimal(n / 10);
        assert(a =~= decimal(m).drop_last());
        assert(b =~= decimal(n).drop_last());
        assert(decimal(m).last() == digit_char((m % 10) as int));
        assert(decimal(n).last() == digit_char((n % 10) as int));
        lemma_decimal_injective(m / 10, n / 10);
        assert(m % 10 == n % 10);
    } else {
        lemma_decimal_long(m);
        lemma_decimal_long(n);
        assert(decimal(m).len() == decimal(n).len());
        assert(false);
    }
}

proof fn lemma_decimal_long(n: nat)
    ensures
        decimal(n).len() >= 1,
        n >= 10 ==> decimal(n).len() >= 2,
    decreases n,
{
    if n >= 10 {
        lemma_decimal_long(n / 10);
    }
}

/// Decides whether two texts are the same.
pub fn text_is(a: &str, b: &str) -> (r: bool)
    ensures
        r == (a@ == b@),
{
    proof {
        lemma_rank_zero_is_equality(a@, b@);
    }
    compare_text(a, b) == 0
}

/// The position of the first dot of `s` at or after `from`; the length of
/// `s` where there is none.
pub open spec fn dot_from(s: Seq<char>, from: int) -> int
    decreases s.len() - from,
{
    if from < 0 || from >= s.len() {
        s.len() as int
    } else if s[from] == '.' {
        from
    } else {
        dot_from(s, from + 1)
    }
}

/// Finds the first dot of `s` at or after `from`.
pub fn find_dot(s: &str, from: usize) -> (r: usize)
    requires
        from <= s@.len(),
    ensures
        r == dot_from(s@, from as int),
        from <= r <= s@.len(),
{
    let n = s.unicode_len();
    let mut i: usize = from;
    while i < n
        invariant
            from <= i <= n,
            n == s@.len(),
            dot_from(s@, from as int) == dot_from(s@, i as int),
        decreases n - i,
    {
        if s.get_char(i) == '.' {
            return i;
        }
        i += 1;
    }
    n
}

/// What a file's name says: the name proper, the flags and the extension.
/// The name is cut at its dots. The first piece is the name proper. With two
/// pieces the second is the extension and there are no flags; with more, the
/// second piece holds the flags and the third is the extension. A name
/// without a dot says nothing.
pub open spec fn file_name_parts(name: Seq<char>) -> Option<(Seq<char>, Seq<char>, Seq<char>)> {
    let first = dot_from(name, 0);
    if first >= name.len() {
        None
    } else {
        let second = dot_from(name, first + 1);
        if second >= name.len() {
            Some(
                (
                    name.subrange(0, first),
                    Seq::empty(),
                    name.subrange(first + 1, name.len() as int),
                ),
            )
        } else {
            let third = dot_from(name, second + 1);
            Some(
                (
                    name.subrange(0, first),
                    name.subrange(first + 1, second),
                    name.subrange(second + 1, third),
                ),
            )
        }
    }
}

/// Cuts a file's name into the name proper, the flags and the extension.
pub fn split_file_name(name: &str) -> (r: Option<(String, String, String)>)
    ensures
        match r {
            Some(parts) => file_name_parts(name@) == Some((parts.0@, parts.1@, parts.2@)),
            None => file_name_parts(name@) is None,
        },
{
    let n = name.unicode_len();
    let first = find_dot(name, 0);
    if first >= n {
        return None;
    }
    let stem = name.substring_char(0, first).to_owned();
    let second = find_dot(name, first + 1);
    if second >= n {
        let extension = name.substring_char(first + 1, n).to_owned();
        return Some((stem, String::new(), extension));
    }
    let third = find_dot(name, second + 1);
    let flags = name.substring_char(first + 1, second).to_owned();
    let extension = name.substring_char(second + 1, third).to_owned();
    Some((stem, flags, extension))
}

} // verus!
