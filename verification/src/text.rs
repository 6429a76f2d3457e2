//! Small text functions: trimming, decimal numbers, speaker labels.

use vstd::prelude::*;

verus! {

/// Whether a character is white space, by the Unicode property `White_Space`.
pub open spec fn white(c: char) -> bool {
    let u = c as u32;
    ||| 0x09 <= u <= 0x0D
    ||| u == 0x20
    ||| u == 0x85
    ||| u == 0xA0
    ||| u == 0x1680
    ||| 0x2000 <= u <= 0x200A
    ||| u == 0x2028
    ||| u == 0x2029
    ||| u == 0x202F
    ||| u == 0x205F
    ||| u == 0x3000
}

/// Text without the white space that it begins with.
pub open spec fn trimmed_start(s: Seq<char>) -> Seq<char>
    decreases s.len(),
{
    if s.len() > 0 && white(s[0]) {
        trimmed_start(s.subrange(1, s.len() as int))
    } else {
        s
    }
}

/// Text without the white space that it ends with.
pub open spec fn trimmed_end(s: Seq<char>) -> Seq<char>
    decreases s.len(),
{
    if s.len() > 0 && white(s.last()) {
        trimmed_end(s.drop_last())
    } else {
        s
    }
}

/// Text without the white space around it.
pub open spec fn trimmed(s: Seq<char>) -> Seq<char> {
    trimmed_end(trimmed_start(s))
}

/// Whether a character is white space.
pub fn is_white_space(c: char) -> (r: bool)
    ensures
        r == white(c),
{
    let u: u32 = c as u32;
    (0x09 <= u && u <= 0x0D) || u == 0x20 || u == 0x85 || u == 0xA0 || u == 0x1680 || (0x2000 <= u
        && u <= 0x200A) || u == 0x2028 || u == 0x2029 || u == 0x202F || u == 0x205F || u == 0x3000
}

/// Text without the white space around it.
pub fn trim(s: &str) -> (r: &str)
    ensures
        r@ == trimmed(s@),
{
    let n: usize = s.unicode_len();
    let mut from: usize = 0;
    assert(s@.subrange(0, n as int) =~= s@);
    while from < n && is_white_space(s.get_char(from))
        invariant
            n == s@.len(),
            from <= n,
            trimmed_start(s@) == trimmed_start(s@.subrange(from as int, n as int)),
        decreases n - from,
    {
        assert(s@.subrange(from as int, n as int).subrange(1, n - from) =~= s@.subrange(
            from + 1,
            n as int,
        ));
        from = from + 1;
    }
    let mut to: usize = n;
    assert(trimmed_start(s@) == s@.subrange(from as int, n as int));
    while from < to && is_white_space(s.get_char(to - 1))
        invariant
            n == s@.len(),
            from <= to <= n,
            trimmed(s@) == trimmed_end(s@.subrange(from as int, to as int)),
        decreases to - from,
    {
        assert(s@.subrange(from as int, to as int).drop_last() =~= s@.subrange(
            from as int,
            to - 1,
        ));
        to = to - 1;
    }
    s.substring_char(from, to)
}

/// Trimming takes off white space only, all of it at both ends, and nothing
/// in between.
pub proof fn law_trimmed(s: Seq<char>) -> (range: (int, int))
    ensures
        0 <= range.0 <= range.1 <= s.len(),
        trimmed(s) == s.subrange(range.0, range.1),
        forall|i: int| 0 <= i < range.0 || range.1 <= i < s.len() ==> white(#[trigger] s[i]),
        range.0 < range.1 ==> !white(s[range.0]) && !white(s[range.1 - 1]),
        trimmed(trimmed(s)) == trimmed(s),
{
    let a = lemma_trimmed_start(s);
    let t = trimmed_start(s);
    let b = lemma_trimmed_end(t);
    assert(t.subrange(0, b) =~= s.subrange(a, a + b));
    let r = trimmed(s);
    assert forall|i: int| 0 <= i < a || a + b <= i < s.len() implies white(#[trigger] s[i]) by {
        if i >= a + b {
            assert(t[i - a] == s[i]);
        }
    }
    if b > 0 {
        assert(t[0] == s[a] && t[b - 1] == s[a + b - 1]);
        assert(r[0] == s[a]);
        assert(r.last() == s[a + b - 1]);
    }
    (a, a + b)
}

proof fn lemma_trimmed_start(s: Seq<char>) -> (a: int)
    ensures
        0 <= a <= s.len(),
        trimmed_start(s) == s.subrange(a, s.len() as int),
        forall|i: int| 0 <= i < a ==> white(#[trigger] s[i]),
        a < s.len() ==> !white(s[a]),
    decreases s.len(),
{
    if s.len() > 0 && white(s[0]) {
        let rest = s.subrange(1, s.len() as int);
        let a = lemma_trimmed_start(rest);
        assert(rest.subrange(a, rest.len() as int) =~= s.subrange(a + 1, s.len() as int));
        assert forall|i: int| 0 <= i < a + 1 implies white(#[trigger] s[i]) by {
            if i > 0 {
                assert(rest[i - 1] == s[i]);
            }
        }
        a + 1
    } else {
        assert(s.subrange(0, s.len() as int) =~= s);
        0
    }
}

proof fn lemma_trimmed_end(s: Seq<char>) -> (b: int)
    ensures
        0 <= b <= s.len(),
        trimmed_end(s) == s.subrange(0, b),
        forall|i: int| b <= i < s.len() ==> white(#[trigger] s[i]),
        b > 0 ==> !white(s[b - 1]),
    decreases s.len(),
{
    if s.len() > 0 && white(s.last()) {
        let rest = s.drop_last();
        let b = lemma_trimmed_end(rest);
        assert(rest.subrange(0, b) =~= s.subrange(0, b));
        assert forall|i: int| b <= i < s.len() implies white(#[trigger] s[i]) by {
            if i < rest.len() {
                assert(rest[i] == s[i]);
            }
        }
        b
    } else {
        assert(s.subrange(0, s.len() as int) =~= s);
        s.len() as int
    }
}

/// The character of a decimal digit.
pub open spec fn digit(d: nat) -> char {
    if d == 0 {
        '0'
    } else if d == 1 {
        '1'
    } else if d == 2 {
        '2'
    } else if d == 3 {
        '3'
    } else if d == 4 {
        '4'
    } else if d == 5 {
        '5'
    } else if d == 6 {
        '6'
    } else if d == 7 {
        '7'
    } else if d == 8 {
        '8'
    } else {
        '9'
    }
}

/// A number in decimal digits.
pub open spec fn decimal(n: nat) -> Seq<char>
    decreases n,
{
    if n < 10 {
        seq![digit(n)]
    } else {
        decimal(n / 10).push(digit(n % 10))
    }
}

fn digit_str(d: u128) -> (r: &'static str)
    requires
        d < 10,
    ensures
        r@ == seq![digit(d as nat)],
{
    proof {
        reveal_strlit("0");
        reveal_strlit("1");
        reveal_strlit("2");
        reveal_strlit("3");
        reveal_strlit("4");
        reveal_strlit("5");
        reveal_strlit("6");
        reveal_strlit("7");
        reveal_strlit("8");
        reveal_strlit("9");
    }
    let r: &'static str = if d == 0 {
        "0"
    } else if d == 1 {
        "1"
    } else if d == 2 {
        "2"
    } else if d == 3 {
        "3"
    } else if d == 4 {
        "4"
    } else if d == 5 {
        "5"
    } else if d == 6 {
        "6"
    } else if d == 7 {
        "7"
    } else if d == 8 {
        "8"
    } else {
        "9"
    };
    assert(r@ =~= seq![digit(d as nat)]);
    r
}

/// A number in decimal digits.
pub fn decimal_string(n: u128) -> (r: String)
    ensures
        r@ == decimal(n as nat),
    decreases n,
{
    if n < 10 {
        digit_str(n).to_owned()
    } else {
        let mut r: String = decimal_string(n / 10);
        let ghost front = r@;
        r.append(digit_str(n % 10));
        assert(r@ =~= front.push(digit(n as nat % 10)));
        r
    }
}

/// The label of a speaker counted from 0: `Speaker 1`, `Speaker 2` and so on.
pub open spec fn label(speaker: nat) -> Seq<char> {
    "Speaker "@ + decimal(speaker + 1)
}

/// The label of a speaker counted from 0.
pub fn speaker_label(speaker: usize) -> (r: String)
    ensures
        r@ == label(speaker as nat),
{
    let mut r: String = "Speaker ".to_owned();
    r.append(decimal_string(speaker as u128 + 1).as_str());
    r
}

/// Different numbers have different digits.
proof fn lemma_decimal_is_injective(m: nat, n: nat)
    requires
        decimal(m) == decimal(n),
    ensures
        m == n,
    decreases m,
{
    lemma_decimal_len(m);
    lemma_decimal_len(n);
    assert(decimal(m).last() == digit(m % 10));
    assert(decimal(n).last() == digit(n % 10));
    assert(m % 10 == n % 10);
    if m >= 10 && n >= 10 {
        assert(decimal(m).drop_last() =~= decimal(m / 10));
        assert(decimal(n).drop_last() =~= decimal(n / 10));
        lemma_decimal_is_injective(m / 10, n / 10);
    } else if m >= 10 {
        lemma_decimal_len(m / 10);
    } else if n >= 10 {
        lemma_decimal_len(n / 10);
    }
}

proof fn lemma_decimal_len(n: nat)
    ensures
        decimal(n).len() >= 1,
    decreases n,
{
    if n >= 10 {
        lemma_decimal_len(n / 10);
    }
}

/// Different speakers have different labels.
pub proof fn law_labels_tell_speakers_apart(a: nat, b: nat)
    requires
        label(a) == label(b),
    ensures
        a == b,
{
    let head = "Speaker "@;
    assert(label(a).subrange(head.len() as int, label(a).len() as int) =~= decimal(a + 1));
    assert(label(b).subrange(head.len() as int, label(b).len() as int) =~= decimal(b + 1));
    lemma_decimal_is_injective(a + 1, b + 1);
}

/// White space is what Unicode has as such: 25 characters.
pub proof fn law_white_space(c: char)
    ensures
        white(c) <==> {
            let u = c as int;
            u == 9 || u == 10 || u == 11 || u == 12 || u == 13 || u == 32 || u == 133 || u == 160
                || u == 5760 || u == 8192 || u == 8193 || u == 8194 || u == 8195 || u == 8196 || u
                == 8197 || u == 8198 || u == 8199 || u == 8200 || u == 8201 || u == 8202 || u
                == 8232 || u == 8233 || u == 8239 || u == 8287 || u == 12288
        },
{
}

/// The digits of a number are its decimal digits: each is ten times as much as
/// the one after it, and there is no zero in front.
pub proof fn law_decimal_digits(n: nat)
    ensures
        decimal(n).fold_left(0int, |number: int, c: char| 10 * number + (c as int - 48)) == n,
        forall|i: int| 0 <= i < decimal(n).len() ==> 48 <= (#[trigger] decimal(n)[i]) as int <= 57,
        decimal(n).len() > 0,
        decimal(n).len() > 1 ==> decimal(n)[0] as int != 48,
    decreases n,
{
    let read = |number: int, c: char| 10 * number + (c as int - 48);
    let all = decimal(n);
    if n < 10 {
        assert(all.drop_last() =~= Seq::<char>::empty());
        assert(all.drop_last().fold_left(0int, read) == 0);
        assert(all.fold_left(0int, read) == read(0int, all.last()));
    } else {
        law_decimal_digits(n / 10);
        assert(all.drop_last() =~= decimal(n / 10));
        assert(all.fold_left(0int, read) == read(all.drop_last().fold_left(0int, read), all.last()));
        assert(all[0] == decimal(n / 10)[0]);
        if decimal(n / 10).len() == 1 {
            assert(n / 10 < 10) by {
                if n / 10 >= 10 {
                    lemma_decimal_len(n / 100);
                    assert(n / 10 / 10 == n / 100);
                }
            }
        }
    }
}

/// A label is the word `Speaker`, a space, and the number of the speaker,
/// counted from 1.
pub proof fn law_labels_count_from_one(speaker: nat)
    ensures
        label(speaker).len() > 8,
        label(speaker).subrange(0, 8) == seq!['S', 'p', 'e', 'a', 'k', 'e', 'r', ' '],
        label(speaker).subrange(8, label(speaker).len() as int).fold_left(
            0int,
            |number: int, c: char| 10 * number + (c as int - 48),
        ) == speaker + 1,
{
    reveal_strlit("Speaker ");
    law_decimal_digits(speaker + 1);
    let all = label(speaker);
    assert(all.subrange(8, all.len() as int) =~= decimal(speaker + 1));
    assert(all.subrange(0, 8) =~= seq!['S', 'p', 'e', 'a', 'k', 'e', 'r', ' ']);
}

} // verus!
