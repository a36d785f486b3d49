//! File names: stem and extension, the parent prefix, and numbered
//! alternatives for a name that is taken.

use vstd::prelude::*;
use vstd::string::*;

verus! {

/// The character that writes the digit `d`.
pub open spec fn digit_char(d: nat) -> char {
    if d == 0 {
        '0'
    } else if d == 1 {
        '1'
    } else if d == 2 {
        '2'
    } else if d == 3 {
        '3'
    } else if d == 4 {
        '4'
    } else if d == 5 {
        '5'
    } else if d == 6 {
        '6'
    } else if d == 7 {
        '7'
    } else if d == 8 {
        '8'
    } else {
        '9'
    }
}

/// The digit that `c` writes; zero for a character that is no digit.
pub open spec fn digit_value(c: char) -> nat {
    if c == '1' {
        1
    } else if c == '2' {
        2
    } else if c == '3' {
        3
    } else if c == '4' {
        4
    } else if c == '5' {
        5
    } else if c == '6' {
        6
    } else if c == '7' {
        7
    } else if c == '8' {
        8
    } else if c == '9' {
        9
    } else {
        0
    }
}

/// `n` written in base ten, without sign or leading zeros.
pub open spec fn decimal(n: nat) -> Seq<char>
    decreases n,
{
    if n < 10 {
        seq![digit_char(n)]
    } else {
        decimal(n / 10).push(digit_char(n % 10))
    }
}

/// The number that a string of digits writes in base ten.
pub open spec fn decimal_value(s: Seq<char>) -> nat
    decreases s.len(),
{
    if s.len() == 0 {
        0
    } else {
        decimal_value(s.drop_last()) * 10 + digit_value(s.last())
    }
}

/// Reading back what `decimal` wrote gives the number again.
pub proof fn lemma_decimal_value(n: nat)
    ensures
        decimal_value(decimal(n)) == n,
    decreases n,
{
    let s = decimal(n);
    if n < 10 {
        assert(s.len() == 1);
        assert(s.last() == digit_char(n));
        assert(s.drop_last().len() == 0);
        assert(decimal_value(s.drop_last()) == 0);
    } else {
        lemma_decimal_value(n / 10);
        assert(s.drop_last() =~= decimal(n / 10));
        assert(s.last() == digit_char(n % 10));
    }
}

/// Two numbers with the same decimal form are the same number.
pub proof fn lemma_decimal_injective(a: nat, b: nat)
    requires
        decimal(a) == decimal(b),
    ensures
        a == b,
{
    lemma_decimal_value(a);
    lemma_decimal_value(b);
}

/// The position of the last `.` in `s`, or -1 where it holds none.
pub open spec fn last_dot(s: Seq<char>) -> int
    decreases s.len(),
{
    if s.len() == 0 {
        -1
    } else if s.last() == '.' {
        s.len() - 1
    } else {
        last_dot(s.drop_last())
    }
}

/// `last_dot` is -1 or a position of `s` that holds a dot.
pub proof fn lemma_last_dot_bounds(s: Seq<char>)
    ensures
        -1 <= last_dot(s) < s.len(),
        last_dot(s) >= 0 ==> s[last_dot(s)] == '.',
    decreases s.len(),
{
    if s.len() > 0 && s.last() != '.' {
        lemma_last_dot_bounds(s.drop_last());
    }
}

/// Where a name divides into stem and extension: at its last dot, unless
/// that dot opens the name or the name holds none; then the whole name is
/// stem.
pub open spec fn split_point(name: Seq<char>) -> int {
    if last_dot(name) <= 0 {
        name.len() as int
    } else {
        last_dot(name)
    }
}

/// The name without its extension.
pub open spec fn stem(name: Seq<char>) -> Seq<char> {
    name.take(split_point(name))
}

/// The extension with its dot in front, or nothing where the name has none.
pub open spec fn dotted_extension(name: Seq<char>) -> Seq<char> {
    name.skip(split_point(name))
}

/// The `k`-th alternative for `name`: `_k` set between stem and extension.
pub open spec fn numbered(name: Seq<char>, k: nat) -> Seq<char> {
    stem(name) + seq!['_'] + decimal(k) + dotted_extension(name)
}

/// The name of a file prefixed by that of the directory that holds it.
pub open spec fn prefixed(parent: Seq<char>, leaf: Seq<char>) -> Seq<char> {
    parent + seq!['_'] + leaf
}

/// Stem and extension put together give the name again.
pub proof fn lemma_split_rejoins(name: Seq<char>)
    ensures
        0 <= split_point(name) <= name.len(),
        stem(name) + dotted_extension(name) == name,
{
    lemma_last_dot_bounds(name);
    assert(stem(name) + dotted_extension(name) =~= name);
}

/// Different numbers give different alternatives for one name.
pub proof fn lemma_numbered_injective(name: Seq<char>, j: nat, k: nat)
    requires
        numbered(name, j) == numbered(name, k),
    ensures
        j == k,
{
    lemma_split_rejoins(name);
    let head = stem(name) + seq!['_'];
    let tail = dotted_extension(name);
    let a = numbered(name, j);
    let b = numbered(name, k);
    assert(a.len() == head.len() + decimal(j).len() + tail.len());
    assert(b.len() == head.len() + decimal(k).len() + tail.len());
    let n = decimal(j).len() as int;
    assert(decimal(j) =~= a.subrange(head.len() as int, head.len() + n));
    assert(decimal(k) =~= b.subrange(head.len() as int, head.len() + n));
    lemma_decimal_injective(j, k);
}

fn digit_str(d: u128) -> (r: &'static str)
    requires
        d < 10,
    ensures
        r@ =~= seq![digit_char(d as nat)],
{
    proof {
        reveal_strlit("0");
        reveal_strlit("1");
        reveal_strlit("2");
        reveal_strlit("3");
        reveal_strlit("4");
        reveal_strlit("5");
        reveal_strlit("6");
        reveal_strlit("7");
        reveal_strlit("8");
        reveal_strlit("9");
    }
    if d == 0 {
        "0"
    } else if d == 1 {
        "1"
    } else if d == 2 {
        "2"
    } else if d == 3 {
        "3"
    } else if d == 4 {
        "4"
    } else if d == 5 {
        "5"
    } else if d == 6 {
        "6"
    } else if d == 7 {
        "7"
    } else if d == 8 {
        "8"
    } else {
        "9"
    }
}

/// Writes `n` in base ten.
pub fn render_decimal(n: u128) -> (r: String)
    ensures
        r@ == decimal(n as nat),
    decreases n,
{
    if n < 10 {
        String::from_str(digit_str(n))
    } else {
        let head = render_decimal(n / 10);
        let r = head.concat(digit_str(n % 10));
        assert(r@ =~= decimal((n / 10) as nat).push(digit_char((n % 10) as nat)));
        r
    }
}

/// Finds where `name` divides into stem and extension.
pub fn find_split_point(name: &String) -> (cut: usize)
    ensures
        cut == split_point(name@),
        cut <= name@.len(),
{
    let text = name.as_str();
    let len = text.unicode_len();
    let mut found: Option<usize> = None;
    let mut i: usize = 0;
    while i < len
        invariant
            len == name@.len(),
            text@ == name@,
            i <= len,
            found is None ==> last_dot(name@.take(i as int)) == -1,
            found is Some ==> last_dot(name@.take(i as int)) == found->Some_0,
            found is Some ==> found->Some_0 < i,
        decreases len - i,
    {
        proof {
            assert(name@.take(i + 1).drop_last() =~= name@.take(i as int));
            assert(name@.take(i + 1).last() == name@[i as int]);
        }
        if text.get_char(i) == '.' {
            found = Some(i);
        }
        i = i + 1;
    }
    proof {
        assert(name@.take(len as int) =~= name@);
    }
    match found {
        Some(d) => if d == 0 {
            len
        } else {
            d
        },
        None => len,
    }
}

/// Builds the `k`-th alternative for `name`.
pub fn numbered_name(name: &String, k: u128) -> (r: String)
    ensures
        r@ == numbered(name@, k as nat),
{
    let text = name.as_str();
    let len = text.unicode_len();
    let cut = find_split_point(name);
    let digits = render_decimal(k);
    let mut out = String::from_str(text.substring_char(0, cut));
    proof {
        reveal_strlit("_");
    }
    out.append("_");
    out.append(digits.as_str());
    out.append(text.substring_char(cut, len));
    assert(out@ =~= numbered(name@, k as nat));
    out
}

/// Builds the name of a file prefixed by that of its directory.
pub fn prefixed_name(parent: &String, leaf: &String) -> (r: String)
    ensures
        r@ == prefixed(parent@, leaf@),
{
    let mut out = parent.clone();
    proof {
        reveal_strlit("_");
    }
    out.append("_");
    out.append(leaf.as_str());
    assert(out@ =~= prefixed(parent@, leaf@));
    out
}

} // verus!
