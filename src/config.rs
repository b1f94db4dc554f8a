use vstd::prelude::*;

use crate::chars::{chars_of, string_of};

verus! {

/// The number of characters before the first `\n` of `s` (all of them where
/// there is none).
pub open spec fn line_len(s: Seq<char>) -> nat
    decreases s.len(),
{
    if s.len() == 0 || s[0] == '\n' {
        0
    } else {
        1 + line_len(s.drop_first())
    }
}

/// A line that ended in `\n` loses one `\r` before it.
pub open spec fn strip_cr(line: Seq<char>) -> Seq<char> {
    if line.len() > 0 && line.last() == '\r' {
        line.drop_last()
    } else {
        line
    }
}

/// The lines of a text, as `str::lines` yields them: split at each `\n`, a
/// `\r` before the `\n` dropped, and no empty line after a final `\n`.
pub open spec fn split_lines(s: Seq<char>) -> Seq<Seq<char>>
    decreases s.len(),
    via split_lines_decreases
{
    if s.len() == 0 {
        seq![]
    } else if line_len(s) >= s.len() {
        seq![s]
    } else {
        seq![strip_cr(s.subrange(0, line_len(s) as int))] + split_lines(
            s.subrange(line_len(s) as int + 1, s.len() as int),
        )
    }
}

#[via_fn]
proof fn split_lines_decreases(s: Seq<char>) {
    lemma_line_len(s);
}

/// The first line holds no `\n`, and a `\n` ends it where the text goes on.
pub proof fn lemma_line_len(s: Seq<char>)
    ensures
        line_len(s) <= s.len(),
        line_len(s) < s.len() ==> s[line_len(s) as int] == '\n',
        forall|i: int| 0 <= i < line_len(s) ==> s[i] != '\n',
    decreases s.len(),
{
    if s.len() > 0 && s[0] != '\n' {
        lemma_line_len(s.drop_first());
        assert forall|i: int| 0 <= i < line_len(s) implies s[i] != '\n' by {
            if i > 0 {
                assert(s[i] == s.drop_first()[i - 1]);
            }
        }
    }
}

/// `s` without one `"` at its start, where it has one.
pub open spec fn drop_open_quote(s: Seq<char>) -> Seq<char> {
    if s.len() > 0 && s[0] == '"' {
        s.drop_first()
    } else {
        s
    }
}

/// `s` without one `"` at its end, where it has one.
pub open spec fn drop_close_quote(s: Seq<char>) -> Seq<char> {
    if s.len() > 0 && s.last() == '"' {
        s.drop_last()
    } else {
        s
    }
}

/// `s` with one layer of surrounding quotes removed: at most one `"` at the
/// start and at most one at the end.
pub open spec fn unquote(s: Seq<char>) -> Seq<char> {
    drop_close_quote(drop_open_quote(s))
}

/// The key of the source path.
pub open spec fn path_key() -> Seq<char> {
    seq!['P', 'a', 't', 'h', '=']
}

/// The key of the destination path.
pub open spec fn dest_key() -> Seq<char> {
    seq!['D', 'e', 's', 't', 'P', 'a', 't', 'h', '=']
}

/// The value that one line gives to `key`: what follows the key, with one
/// layer of quotes removed (see `unquote`), where the line starts with the key.
pub open spec fn line_value(line: Seq<char>, key: Seq<char>) -> Option<Seq<char>> {
    if key.is_prefix_of(line) {
        Some(unquote(line.subrange(key.len() as int, line.len() as int)))
    } else {
        None
    }
}

/// `later` where it is a value, else `earlier`.
pub open spec fn later_or(earlier: Option<Seq<char>>, later: Option<Seq<char>>) -> Option<
    Seq<char>,
> {
    if later is Some {
        later
    } else {
        earlier
    }
}

/// The value of `key` in a list of lines: that of the last line that gives
/// it one.
pub open spec fn last_value(lines: Seq<Seq<char>>, key: Seq<char>) -> Option<Seq<char>>
    decreases lines.len(),
{
    if lines.len() == 0 {
        None
    } else {
        later_or(line_value(lines[0], key), last_value(lines.drop_first(), key))
    }
}

/// The source and destination paths that a configuration text sets, where
/// it sets both, and neither is empty.
pub open spec fn config_of(text: Seq<char>) -> Option<(Seq<char>, Seq<char>)> {
    let lines = split_lines(text);
    match (last_value(lines, path_key()), last_value(lines, dest_key())) {
        (Some(p), Some(d)) => if p.len() > 0 && d.len() > 0 {
            Some((p, d))
        } else {
            None
        },
        _ => None,
    }
}

/// The text of a configuration file: one `Key="value"` line per path.
pub open spec fn config_text_of(path: Seq<char>, dest: Seq<char>) -> Seq<char> {
    path_key() + seq!['"'] + path + seq!['"', '\n'] + dest_key() + seq!['"'] + dest + seq![
        '"',
        '\n',
    ]
}

/// The characters of an optional value.
pub open spec fn chars_view(o: Option<Vec<char>>) -> Option<Seq<char>> {
    match o {
        Some(v) => Some(v@),
        None => None,
    }
}

/// Whether `s[start..end]` starts with `key`.
fn has_prefix_at(s: &Vec<char>, start: usize, end: usize, key: &Vec<char>) -> (r: bool)
    requires
        start <= end <= s@.len(),
    ensures
        r == key@.is_prefix_of(s@.subrange(start as int, end as int)),
{
    if key.len() > end - start {
        return false;
    }
    let mut i: usize = 0;
    while i < key.len()
        invariant
            start <= end <= s@.len(),
            key@.len() <= end - start,
            i <= key@.len(),
            forall|k: int| 0 <= k < i ==> key@[k] == s@[start + k],
        decreases key@.len() - i,
    {
        if key[i] != s[start + i] {
            assert(key@[i as int] != s@.subrange(start as int, end as int)[i as int]);
            return false;
        }
        i = i + 1;
    }
    assert forall|k: int| 0 <= k < key@.len() implies key@[k] == s@.subrange(
        start as int,
        end as int,
    )[k] by {}
    true
}

/// `s[start..end]` with one layer of surrounding quotes removed.
fn unquoted(s: &Vec<char>, start: usize, end: usize) -> (r: Vec<char>)
    requires
        start <= end <= s@.len(),
    ensures
        r@ == unquote(s@.subrange(start as int, end as int)),
{
    let ghost v = s@.subrange(start as int, end as int);
    let mut a: usize = start;
    if a < end && s[a] == '"' {
        a = a + 1;
    }
    assert(drop_open_quote(v) =~= s@.subrange(a as int, end as int));
    let mut b: usize = end;
    if b > a && s[b - 1] == '"' {
        b = b - 1;
    }
    assert(unquote(v) =~= s@.subrange(a as int, b as int));
    let mut out: Vec<char> = Vec::new();
    let mut i: usize = a;
    while i < b
        invariant
            a <= i <= b <= s@.len(),
            out@ == s@.subrange(a as int, i as int),
        decreases b - i,
    {
        out.push(s[i]);
        i = i + 1;
    }
    out
}

/// The source and destination paths of a configuration text, where it
/// holds a `Path=` line and a `DestPath=` line and neither value is empty;
/// the last such line wins, and one layer of quotes around a value is
/// dropped.
pub fn parse_config(contents: &str) -> (r: Option<(String, String)>)
    ensures
        match config_of(contents@) {
            None => r is None,
            Some((p, d)) => r is Some && r->Some_0.0@ == p && r->Some_0.1@ == d,
        },
        r is Some ==> r->Some_0.0@.len() > 0 && r->Some_0.1@.len() > 0,
{
    let s = chars_of(contents);
    let n = s.len();
    let pkey: Vec<char> = vec!['P', 'a', 't', 'h', '='];
    let dkey: Vec<char> = vec!['D', 'e', 's', 't', 'P', 'a', 't', 'h', '='];
    assert(pkey@ =~= path_key());
    assert(dkey@ =~= dest_key());
    let mut path: Option<Vec<char>> = None;
    let mut dest: Option<Vec<char>> = None;
    let mut pos: usize = 0;
    assert(s@.subrange(0, n as int) =~= s@);
    while pos < n
        invariant
            n == s@.len(),
            pos <= n,
            pkey@ == path_key(),
            dkey@ == dest_key(),
            last_value(split_lines(s@), path_key()) == later_or(
                chars_view(path),
                last_value(split_lines(s@.subrange(pos as int, n as int)), path_key()),
            ),
            last_value(split_lines(s@), dest_key()) == later_or(
                chars_view(dest),
                last_value(split_lines(s@.subrange(pos as int, n as int)), dest_key()),
            ),
        decreases n - pos,
    {
        let ghost rest = s@.subrange(pos as int, n as int);
        let mut j: usize = pos;
        while j < n && s[j] != '\n'
            invariant
                n == s@.len(),
                pos <= j <= n,
                rest == s@.subrange(pos as int, n as int),
                line_len(rest) == (j - pos) + line_len(s@.subrange(j as int, n as int)),
            decreases n - j,
        {
            assert(s@.subrange(j as int, n as int).drop_first() =~= s@.subrange(
                j + 1,
                n as int,
            ));
            j = j + 1;
        }
        assert(line_len(rest) == j - pos);
        let mut end: usize = j;
        if j < n && end > pos && s[end - 1] == '\r' {
            end = end - 1;
        }
        let ghost line = if j < n {
            strip_cr(rest.subrange(0, (j - pos) as int))
        } else {
            rest
        };
        assert(line =~= s@.subrange(pos as int, end as int));
        let next: usize = if j < n {
            j + 1
        } else {
            n
        };
        let ghost rest2 = s@.subrange(next as int, n as int);
        assert(split_lines(rest) =~= seq![line] + split_lines(rest2)) by {
            if j < n {
                assert(rest.subrange(line_len(rest) as int + 1, rest.len() as int) =~= rest2);
            } else {
                assert(rest2.len() == 0);
                assert(split_lines(rest2) =~= Seq::<Seq<char>>::empty());
            }
        }
        assert((seq![line] + split_lines(rest2)).drop_first() =~= split_lines(rest2));
        if has_prefix_at(&s, pos, end, &pkey) {
            path = Some(unquoted(&s, pos + 5, end));
            assert(s@.subrange(pos + 5, end as int) =~= line.subrange(5, line.len() as int));
            assert(line[0] != dest_key()[0]);
        } else if has_prefix_at(&s, pos, end, &dkey) {
            dest = Some(unquoted(&s, pos + 9, end));
            assert(s@.subrange(pos + 9, end as int) =~= line.subrange(9, line.len() as int));
        }
        pos = next;
    }
    assert(split_lines(s@.subrange(pos as int, n as int)) =~= Seq::<Seq<char>>::empty());
    match (path, dest) {
        (Some(p), Some(d)) => {
            if p.len() > 0 && d.len() > 0 {
                Some((string_of(&p), string_of(&d)))
            } else {
                None
            }
        },
        _ => None,
    }
}

/// The text to write to a configuration file for the two paths.
pub fn config_text(path: &str, dest: &str) -> (r: String)
    ensures
        r@ == config_text_of(path@, dest@),
{
    let mut out: Vec<char> = vec!['P', 'a', 't', 'h', '=', '"'];
    let mut p = chars_of(path);
    out.append(&mut p);
    let mut mid: Vec<char> = vec!['"', '\n', 'D', 'e', 's', 't', 'P', 'a', 't', 'h', '=', '"'];
    out.append(&mut mid);
    let mut d = chars_of(dest);
    out.append(&mut d);
    out.push('"');
    out.push('\n');
    assert(out@ =~= config_text_of(path@, dest@));
    string_of(&out)
}


/// A path that a configuration line can carry unchanged: not empty, and
/// without a line break.
pub open spec fn storable(p: Seq<char>) -> bool {
    &&& p.len() > 0
    &&& forall|i: int| 0 <= i < p.len() ==> p[i] != '\n'
}

proof fn lemma_line_len_of_concat(x: Seq<char>, y: Seq<char>)
    requires
        forall|i: int| 0 <= i < x.len() ==> x[i] != '\n',
    ensures
        line_len(x + seq!['\n'] + y) == x.len(),
    decreases x.len(),
{
    if x.len() > 0 {
        assert((x + seq!['\n'] + y).drop_first() =~= x.drop_first() + seq!['\n'] + y);
        lemma_line_len_of_concat(x.drop_first(), y);
    } else {
        assert((x + seq!['\n'] + y)[0] == '\n');
    }
}

proof fn lemma_quoted_value(key: Seq<char>, p: Seq<char>)
    ensures
        line_value(key + seq!['"'] + p + seq!['"'], key) == Some(p),
{
    let line = key + seq!['"'] + p + seq!['"'];
    assert(key.is_prefix_of(line));
    let v = line.subrange(key.len() as int, line.len() as int);
    assert(v =~= seq!['"'] + p + seq!['"']);
    assert(drop_open_quote(v) =~= p + seq!['"']);
    assert(unquote(v) =~= p);
}

/// One `Key="value"` line of a configuration file, without its line break.
pub open spec fn key_line(key: Seq<char>, value: Seq<char>) -> Seq<char> {
    key + seq!['"'] + value + seq!['"']
}

proof fn lemma_text_lines(path: Seq<char>, dest: Seq<char>)
    requires
        storable(path),
        storable(dest),
    ensures
        split_lines(config_text_of(path, dest)) == seq![
            key_line(path_key(), path),
            key_line(dest_key(), dest),
        ],
{
    let l1 = key_line(path_key(), path);
    let l2 = key_line(dest_key(), dest);
    let text = config_text_of(path, dest);
    assert(text =~= l1 + seq!['\n'] + (l2 + seq!['\n']));
    assert forall|i: int| 0 <= i < l1.len() implies l1[i] != '\n' by {
        if path_key().len() < i && i < l1.len() - 1 {
            assert(l1[i] == path[i - path_key().len() - 1]);
        }
    }
    assert forall|i: int| 0 <= i < l2.len() implies l2[i] != '\n' by {
        if dest_key().len() < i && i < l2.len() - 1 {
            assert(l2[i] == dest[i - dest_key().len() - 1]);
        }
    }
    lemma_line_len_of_concat(l1, l2 + seq!['\n']);
    let rest = l2 + seq!['\n'];
    assert(text.subrange(0, l1.len() as int) =~= l1);
    assert(text.subrange(l1.len() as int + 1, text.len() as int) =~= rest);
    assert(strip_cr(l1) == l1);
    lemma_line_len_of_concat(l2, Seq::<char>::empty());
    assert(rest =~= l2 + seq!['\n'] + Seq::<char>::empty());
    assert(rest.subrange(0, l2.len() as int) =~= l2);
    assert(rest.subrange(l2.len() as int + 1, rest.len() as int) =~= Seq::<char>::empty());
    assert(strip_cr(l2) == l2);
    assert(split_lines(Seq::<char>::empty()) =~= Seq::<Seq<char>>::empty());
    assert(split_lines(rest) =~= seq![l2]);
    assert(split_lines(text) =~= seq![l1, l2]);
}

/// A configuration text written for two paths reads back as those paths,
/// where neither is empty or holds a line break.
pub proof fn lemma_config_round_trip(path: Seq<char>, dest: Seq<char>)
    requires
        storable(path),
        storable(dest),
    ensures
        config_of(config_text_of(path, dest)) == Some((path, dest)),
{
    let l1 = key_line(path_key(), path);
    let l2 = key_line(dest_key(), dest);
    lemma_text_lines(path, dest);
    let lines = split_lines(config_text_of(path, dest));
    lemma_quoted_value(path_key(), path);
    lemma_quoted_value(dest_key(), dest);
    assert(!path_key().is_prefix_of(l2)) by {
        assert(l2[0] != path_key()[0]);
    }
    assert(!dest_key().is_prefix_of(l1)) by {
        assert(l1[0] != dest_key()[0]);
    }
    let none = Seq::<Seq<char>>::empty();
    assert(last_value(none, path_key()) is None);
    assert(last_value(none, dest_key()) is None);
    assert(lines.drop_first() =~= seq![l2]);
    assert(seq![l2].drop_first() =~= none);
    assert(last_value(seq![l2], path_key()) is None);
    assert(last_value(seq![l2], dest_key()) == Some(dest));
    assert(last_value(lines, path_key()) == Some(path));
    assert(last_value(lines, dest_key()) == Some(dest));
}

} // verus!
