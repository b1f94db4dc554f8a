use vstd::prelude::*;

use crate::chars::{chars_of, string_of};

verus! {

/// The character of a decimal digit `d < 10`.
pub open spec fn digit_char(d: nat) -> char {
    ((48 + d) as u8) as char
}

/// Whether `c` is one of `0` to `9`.
pub open spec fn is_digit(c: char) -> bool {
    '0' <= c && c <= '9'
}

/// The decimal form of `n`, most significant digit first, without leading
/// zeros.
pub open spec fn decimal(n: nat) -> Seq<char>
    decreases n,
{
    if n < 10 {
        seq![digit_char(n)]
    } else {
        decimal(n / 10).push(digit_char(n % 10))
    }
}

/// The index of the last `.` in `s`, or -1 where there is none.
pub open spec fn last_dot(s: Seq<char>) -> int
    decreases s.len(),
{
    if s.len() == 0 {
        -1
    } else if s.last() == '.' {
        s.len() - 1
    } else {
        last_dot(s.drop_last())
    }
}

/// The extension of a file name, as `Path::extension` gives it: what follows
/// the last `.`, where that `.` is not the name's first character; none for
/// `..`.
pub open spec fn extension_of(name: Seq<char>) -> Option<Seq<char>> {
    if name == seq!['.', '.'] || last_dot(name) <= 0 {
        None
    } else {
        Some(name.subrange(last_dot(name) + 1, name.len() as int))
    }
}

/// `<name>_<timestamp>_<seq>.<ext>`, the numbers in decimal.
pub open spec fn unique_name(name: Seq<char>, timestamp: nat, seq: nat, ext: Seq<char>) -> Seq<
    char,
> {
    name + seq!['_'] + decimal(timestamp) + seq!['_'] + decimal(seq) + seq!['.'] + ext
}

/// Why no new name could be made for a file.
#[derive(Debug, Clone, Copy, PartialEq, Eq, Structural)]
pub enum NameError {
    /// The file name has no extension to carry over.
    NoExtension,
}

fn digit(d: u128) -> (c: char)
    requires
        d < 10,
    ensures
        c == digit_char(d as nat),
{
    ((d as u8) + 48u8) as char
}

/// The decimal digits of `n`.
pub fn decimal_chars(n: u128) -> (r: Vec<char>)
    ensures
        r@ == decimal(n as nat),
    decreases n,
{
    if n < 10 {
        let mut v: Vec<char> = Vec::new();
        v.push(digit(n));
        assert(v@ =~= seq![digit_char(n as nat)]);
        v
    } else {
        let mut v = decimal_chars(n / 10);
        v.push(digit(n % 10));
        v
    }
}

/// The extension of a file name (see `extension_of`).
pub fn extension(name: &Vec<char>) -> (r: Option<Vec<char>>)
    ensures
        match extension_of(name@) {
            None => r is None,
            Some(ext) => r is Some && r->Some_0@ == ext,
        },
{
    let n = name.len();
    let mut dot: Option<usize> = None;
    let mut i: usize = 0;
    while i < n
        invariant
            n == name@.len(),
            i <= n,
            match dot {
                None => last_dot(name@.subrange(0, i as int)) == -1,
                Some(k) => last_dot(name@.subrange(0, i as int)) == k && k < i,
            },
        decreases n - i,
    {
        assert(name@.subrange(0, i + 1).drop_last() =~= name@.subrange(0, i as int));
        if name[i] == '.' {
            dot = Some(i);
        }
        i = i + 1;
    }
    assert(name@.subrange(0, n as int) =~= name@);
    if n == 2 && name[0] == '.' && name[1] == '.' {
        assert(name@ =~= seq!['.', '.']);
        return None;
    }
    assert(name@ != seq!['.', '.']) by {
        if name@ == seq!['.', '.'] {
            assert(name@[0] == '.' && name@[1] == '.');
        }
    }
    match dot {
        None => None,
        Some(k) => {
            if k == 0 {
                None
            } else {
                let mut ext: Vec<char> = Vec::new();
                let mut j: usize = k + 1;
                while j < n
                    invariant
                        n == name@.len(),
                        k < n,
                        k + 1 <= j <= n,
                        ext@ == name@.subrange(k + 1, j as int),
                    decreases n - j,
                {
                    ext.push(name[j]);
                    j = j + 1;
                }
                Some(ext)
            }
        },
    }
}

/// The new name for a file called `file_name`: its name, the time stamp and
/// the sequence number, joined by `_`, and its extension after a `.`.
/// A name without an extension is refused.
pub fn make_name(file_name: &str, timestamp: u128, seq: u64) -> (r: Result<String, NameError>)
    ensures
        match extension_of(file_name@) {
            None => r == Err::<String, NameError>(NameError::NoExtension),
            Some(ext) => r is Ok && r->Ok_0@ == unique_name(
                file_name@,
                timestamp as nat,
                seq as nat,
                ext,
            ),
        },
{
    let mut out = chars_of(file_name);
    let ext = match extension(&out) {
        None => {
            return Err(NameError::NoExtension);
        },
        Some(e) => e,
    };
    let stamp = decimal_chars(timestamp);
    let count = decimal_chars(seq as u128);
    out.push('_');
    let mut a = stamp;
    out.append(&mut a);
    out.push('_');
    let mut b = count;
    out.append(&mut b);
    out.push('.');
    let mut c = ext;
    out.append(&mut c);
    let ghost want = unique_name(file_name@, timestamp as nat, seq as nat, extension_of(file_name@)->Some_0);
    assert(out@ =~= want);
    Ok(string_of(&out))
}

/// The decimal form of a number is a non-empty run of digits.
pub proof fn lemma_decimal_is_digits(n: nat)
    ensures
        decimal(n).len() >= 1,
        forall|i: int| 0 <= i < decimal(n).len() ==> is_digit(#[trigger] decimal(n)[i]),
    decreases n,
{
    if n >= 10 {
        lemma_decimal_is_digits(n / 10);
        assert forall|i: int| 0 <= i < decimal(n).len() implies is_digit(#[trigger] decimal(n)[i]) by {
            if i < decimal(n / 10).len() {
                assert(decimal(n)[i] == decimal(n / 10)[i]);
            }
        }
    }
}

/// Different numbers have different decimal forms.
pub proof fn lemma_decimal_injective(a: nat, b: nat)
    requires
        decimal(a) == decimal(b),
    ensures
        a == b,
    decreases a,
{
    if a < 10 && b < 10 {
        assert(decimal(a)[0] == digit_char(a));
        assert(decimal(b)[0] == digit_char(b));
    } else if a < 10 {
        lemma_decimal_is_digits(b / 10);
        assert(decimal(b).len() >= 2);
    } else if b < 10 {
        lemma_decimal_is_digits(a / 10);
        assert(decimal(a).len() >= 2);
    } else {
        assert(decimal(a).last() == digit_char(a % 10));
        assert(decimal(b).last() == digit_char(b % 10));
        assert(decimal(a / 10) == decimal(a).drop_last());
        assert(decimal(b / 10) == decimal(b).drop_last());
        lemma_decimal_injective(a / 10, b / 10);
    }
}

/// Two sequence numbers give two different names, for the same file name,
/// time stamp and extension; both names are of the form
/// `<name>_<digits>_<digits>.<ext>`.
pub proof fn lemma_unique_names_differ(
    name: Seq<char>,
    timestamp: nat,
    n1: nat,
    n2: nat,
    ext: Seq<char>,
)
    requires
        n1 != n2,
    ensures
        unique_name(name, timestamp, n1, ext) != unique_name(name, timestamp, n2, ext),
        forall|i: int| 0 <= i < decimal(timestamp).len() ==> is_digit(#[trigger] decimal(timestamp)[i]),
        forall|i: int| 0 <= i < decimal(n1).len() ==> is_digit(#[trigger] decimal(n1)[i]),
        forall|i: int| 0 <= i < decimal(n2).len() ==> is_digit(#[trigger] decimal(n2)[i]),
{
    lemma_decimal_is_digits(timestamp);
    lemma_decimal_is_digits(n1);
    lemma_decimal_is_digits(n2);
    let p = name + seq!['_'] + decimal(timestamp) + seq!['_'];
    let d1 = decimal(n1);
    let d2 = decimal(n2);
    let x = unique_name(name, timestamp, n1, ext);
    let y = unique_name(name, timestamp, n2, ext);
    assert(x =~= p + (d1 + seq!['.'] + ext));
    assert(y =~= p + (d2 + seq!['.'] + ext));
    if x == y {
        let s1 = d1 + seq!['.'] + ext;
        let s2 = d2 + seq!['.'] + ext;
        assert forall|i: int| 0 <= i < s1.len() implies s1[i] == s2[i] by {
            assert(x[p.len() + i] == s1[i]);
            assert(y[p.len() + i] == s2[i]);
        }
        if d1.len() < d2.len() {
            assert(s1[d1.len() as int] == '.');
            assert(is_digit(d2[d1.len() as int]));
        } else if d2.len() < d1.len() {
            assert(s2[d2.len() as int] == '.');
            assert(is_digit(d1[d2.len() as int]));
            assert(s1[d2.len() as int] == s2[d2.len() as int]);
        } else {
            assert(d1 =~= d2) by {
                assert forall|i: int| 0 <= i < d1.len() implies d1[i] == d2[i] by {
                    assert(s1[i] == s2[i]);
                }
            }
            lemma_decimal_injective(n1, n2);
        }
    }
}

/// Whether `c` occurs nowhere in `s`.
pub open spec fn lacks(s: Seq<char>, c: char) -> bool {
    forall|i: int| 0 <= i < s.len() ==> s[i] != c
}

/// An extension holds no `.`.
pub proof fn lemma_extension_lacks_dot(name: Seq<char>)
    requires
        extension_of(name) is Some,
    ensures
        lacks(extension_of(name)->Some_0, '.'),
{
    lemma_last_dot(name);
}

proof fn lemma_last_dot(s: Seq<char>)
    ensures
        -1 <= last_dot(s) < s.len(),
        last_dot(s) >= 0 ==> s[last_dot(s)] == '.',
        forall|i: int| last_dot(s) < i < s.len() ==> s[i] != '.',
    decreases s.len(),
{
    if s.len() > 0 && s.last() != '.' {
        lemma_last_dot(s.drop_last());
        assert forall|i: int| last_dot(s) < i < s.len() implies s[i] != '.' by {
            if i < s.len() - 1 {
                assert(s[i] == s.drop_last()[i]);
            }
        }
    }
}

/// Where `p1 c s1` and `p2 c s2` are one sequence and neither `s1` nor `s2`
/// holds `c`, the parts agree.
proof fn lemma_split_at_last(p1: Seq<char>, s1: Seq<char>, p2: Seq<char>, s2: Seq<char>, c: char)
    requires
        p1 + seq![c] + s1 == p2 + seq![c] + s2,
        lacks(s1, c),
        lacks(s2, c),
    ensures
        p1 == p2,
        s1 == s2,
{
    let x = p1 + seq![c] + s1;
    let y = p2 + seq![c] + s2;
    assert(x[p1.len() as int] == c);
    assert(y[p2.len() as int] == c);
    let q1 = p1 + seq![c];
    let q2 = p2 + seq![c];
    assert(x.len() == y.len());
    if p1.len() < p2.len() {
        let i = p2.len() as int;
        assert(i >= q1.len() && i < x.len());
        assert(x[i] == s1[i - q1.len()]);
        assert(y[i] == c);
    } else if p2.len() < p1.len() {
        let i = p1.len() as int;
        assert(i >= q2.len() && i < y.len());
        assert(y[i] == s2[i - q2.len()]);
        assert(x[i] == c);
    }
    assert(p1 =~= x.subrange(0, p1.len() as int));
    assert(p2 =~= y.subrange(0, p2.len() as int));
    assert(s1 =~= x.subrange(p1.len() as int + 1, x.len() as int));
    assert(s2 =~= y.subrange(p2.len() as int + 1, y.len() as int));
}

/// Names made with different sequence numbers differ, whatever the file
/// names, time stamps and (dot-free) extensions: no two attempts of a run
/// are sent to the same name.
pub proof fn lemma_names_never_collide(
    f1: Seq<char>,
    t1: nat,
    n1: nat,
    e1: Seq<char>,
    f2: Seq<char>,
    t2: nat,
    n2: nat,
    e2: Seq<char>,
)
    requires
        n1 != n2,
        lacks(e1, '.'),
        lacks(e2, '.'),
    ensures
        unique_name(f1, t1, n1, e1) != unique_name(f2, t2, n2, e2),
{
    if unique_name(f1, t1, n1, e1) == unique_name(f2, t2, n2, e2) {
        let a1 = f1 + seq!['_'] + decimal(t1);
        let a2 = f2 + seq!['_'] + decimal(t2);
        let d1 = decimal(n1);
        let d2 = decimal(n2);
        assert(unique_name(f1, t1, n1, e1) =~= (a1 + seq!['_'] + d1) + seq!['.'] + e1);
        assert(unique_name(f2, t2, n2, e2) =~= (a2 + seq!['_'] + d2) + seq!['.'] + e2);
        lemma_split_at_last(a1 + seq!['_'] + d1, e1, a2 + seq!['_'] + d2, e2, '.');
        lemma_decimal_is_digits(n1);
        lemma_decimal_is_digits(n2);
        assert(lacks(d1, '_')) by {
            assert forall|i: int| 0 <= i < d1.len() implies d1[i] != '_' by {
                assert(is_digit(d1[i]));
            }
        }
        assert(lacks(d2, '_')) by {
            assert forall|i: int| 0 <= i < d2.len() implies d2[i] != '_' by {
                assert(is_digit(d2[i]));
            }
        }
        lemma_split_at_last(a1, d1, a2, d2, '_');
        lemma_decimal_injective(n1, n2);
    }
}

} // verus!
