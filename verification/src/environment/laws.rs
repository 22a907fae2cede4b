//! What expanding texts and resolving paths come to.

use vstd::prelude::*;

use super::{
    absolute, add_part, backslashed, canonical, collapsed, combined, drive_of, expanded_from,
    first_char, is_network, is_slash, joined, kept, names_drive, parts_of, resolved, value_of,
    without_end, Pairs,
};

verus! {

// ---------------------------------------------------------------------------------------------
// Texts with variables
// ---------------------------------------------------------------------------------------------

/// A piece of a text: a character that stands for itself, or the name of a variable.
pub enum Piece {
    Plain(char),
    Variable(Seq<char>),
}

/// A text written from pieces, names between percent signs, and what is behind them.
pub open spec fn written(pieces: Seq<Piece>, tail: Seq<char>) -> Seq<char>
    decreases pieces.len(),
{
    if pieces.len() == 0 {
        tail
    } else {
        (match pieces[0] {
            Piece::Plain(c) => seq![c],
            Piece::Variable(name) => seq!['%'] + name + seq!['%'],
        }) + written(pieces.skip(1), tail)
    }
}

/// What the pieces stand for: a name that is not known stands for itself.
pub open spec fn meant(vars: Pairs, pieces: Seq<Piece>, tail: Seq<char>) -> Seq<char>
    decreases pieces.len(),
{
    if pieces.len() == 0 {
        tail
    } else {
        (match pieces[0] {
            Piece::Plain(c) => seq![c],
            Piece::Variable(name) => match value_of(vars, name) {
                Some(value) => value,
                None => seq!['%'] + name + seq!['%'],
            },
        }) + meant(vars, pieces.skip(1), tail)
    }
}

/// Whether no piece holds a percent sign of its own.
pub open spec fn pieces_ok(pieces: Seq<Piece>) -> bool {
    forall|i: int|
        0 <= i < pieces.len() ==> match #[trigger] pieces[i] {
            Piece::Plain(c) => c != '%',
            Piece::Variable(name) => !name.contains('%'),
        }
}

proof fn lemma_finds(s: Seq<char>, i: int, k: int, c: char)
    requires
        0 <= i <= k <= s.len(),
        forall|j: int| i <= j < k ==> #[trigger] s[j] != c,
        k < s.len() ==> s[k] == c,
    ensures
        first_char(s, i, c) == if k < s.len() {
            Some(k)
        } else {
            None
        },
    decreases k - i,
{
    if i < k {
        lemma_finds(s, i + 1, k, c);
    }
}

proof fn lemma_tail_stays(vars: Pairs, s: Seq<char>, i: int)
    requires
        0 <= i <= s.len(),
        forall|j: int, k: int|
            i <= j < k < s.len() ==> !(#[trigger] s[j] == '%' && #[trigger] s[k] == '%'),
    ensures
        expanded_from(vars, s, i) == s.skip(i),
    decreases s.len() - i,
{
    if i < s.len() {
        if s[i] == '%' {
            assert forall|k: int| i + 1 <= k < s.len() implies #[trigger] s[k] != '%' by {
                assert(!(s[i] == '%' && s[k] == '%'));
            }
            lemma_finds(s, i + 1, s.len() as int, '%');
        }
        lemma_tail_stays(vars, s, i + 1);
        assert(seq![s[i]] + s.skip(i + 1) =~= s.skip(i));
    } else {
        assert(s.skip(i) =~= Seq::empty());
    }
}

proof fn lemma_expanded(vars: Pairs, pieces: Seq<Piece>, tail: Seq<char>, s: Seq<char>, i: int)
    requires
        0 <= i <= s.len(),
        s.skip(i) == written(pieces, tail),
        pieces_ok(pieces),
        forall|j: int, k: int|
            0 <= j < k < tail.len() ==> !(#[trigger] tail[j] == '%' && #[trigger] tail[k] == '%'),
    ensures
        expanded_from(vars, s, i) == meant(vars, pieces, tail),
    decreases pieces.len(),
{
    let text = s.skip(i);
    assert forall|j: int| 0 <= j < text.len() implies s[i + j] == #[trigger] text[j] by {}
    if pieces.len() == 0 {
        assert forall|j: int, k: int| i <= j < k < s.len() implies !(#[trigger] s[j] == '%'
            && #[trigger] s[k] == '%') by {
            assert(s[j] == tail[j - i] && s[k] == tail[k - i]);
        }
        lemma_tail_stays(vars, s, i);
    } else {
        let rest = written(pieces.skip(1), tail);
        assert(pieces_ok(pieces.skip(1))) by {
            assert forall|k: int| 0 <= k < pieces.skip(1).len() implies match #[trigger] pieces.skip(
                1,
            )[k] {
                Piece::Plain(c) => c != '%',
                Piece::Variable(name) => !name.contains('%'),
            } by {
                let _ = pieces[k + 1];
            }
        }
        match pieces[0] {
            Piece::Plain(c) => {
                assert(s[i + 0] == text[0]);
                assert(text.len() == 1 + rest.len());
                assert(s.skip(i + 1) =~= rest) by {
                    assert forall|j: int| 0 <= j < rest.len() implies s.skip(i + 1)[j] == rest[j] by {
                        assert(s[i + (j + 1)] == text[j + 1]);
                    }
                }
                lemma_expanded(vars, pieces.skip(1), tail, s, i + 1);
            },
            Piece::Variable(name) => {
                let end = i + 1 + name.len();
                assert(text.len() == name.len() + 2 + rest.len());
                assert(s[i + 0] == text[0]);
                assert(s[i + (end - i)] == text[end - i]);
                assert forall|j: int| i + 1 <= j < end implies #[trigger] s[j] != '%' && s[j]
                    == name[j - i - 1] by {
                    assert(s[i + (j - i)] == text[j - i]);
                    assert(name.contains(name[j - i - 1]));
                }
                lemma_finds(s, i + 1, end, '%');
                assert(s.subrange(i + 1, end) =~= name);
                assert(s.skip(end + 1) =~= rest) by {
                    assert forall|j: int| 0 <= j < rest.len() implies s.skip(end + 1)[j]
                        == rest[j] by {
                        assert(s[i + (j + name.len() + 2)] == text[j + name.len() + 2]);
                    }
                }
                lemma_expanded(vars, pieces.skip(1), tail, s, end + 1);
            },
        }
    }
}

/// A text is expanded piece by piece. A percent sign that has no partner stays, with what is behind
/// it.
pub proof fn texts_are_expanded(vars: Pairs, pieces: Seq<Piece>, tail: Seq<char>)
    requires
        pieces_ok(pieces),
        forall|j: int, k: int|
            0 <= j < k < tail.len() ==> !(#[trigger] tail[j] == '%' && #[trigger] tail[k] == '%'),
    ensures
        expanded_from(vars, written(pieces, tail), 0) == meant(vars, pieces, tail),
{
    let s = written(pieces, tail);
    assert(s.skip(0) =~= s);
    lemma_expanded(vars, pieces, tail, s, 0);
}

// ---------------------------------------------------------------------------------------------
// Paths
// ---------------------------------------------------------------------------------------------

/// Whether no part holds a backslash.
pub open spec fn parts_ok(parts: Seq<Seq<char>>) -> bool {
    parts.len() > 0 && forall|i: int|
        0 <= i < parts.len() ==> !(#[trigger] parts[i]).contains('\\')
}

proof fn lemma_joined_front(parts: Seq<Seq<char>>)
    requires
        parts.len() >= 2,
    ensures
        joined(parts) == parts[0] + seq!['\\'] + joined(parts.skip(1)),
    decreases parts.len(),
{
    let front = parts.drop_last();
    if parts.len() == 2 {
        assert(front.len() == 1 && joined(front) == parts[0]);
        assert(parts.skip(1).len() == 1 && joined(parts.skip(1)) == parts[1]);
    } else {
        lemma_joined_front(front);
        assert(front.skip(1) =~= parts.skip(1).drop_last());
        assert(parts.skip(1).last() == parts.last());
    }
    assert(joined(parts) =~= parts[0] + seq!['\\'] + joined(parts.skip(1)));
}

/// The parts of a path that is joined from parts are those parts.
pub proof fn joined_parts_come_apart(parts: Seq<Seq<char>>)
    requires
        parts_ok(parts),
    ensures
        parts_of(joined(parts)) == parts,
    decreases parts.len(),
{
    let s = joined(parts);
    let first = parts[0];
    assert forall|j: int| 0 <= j < first.len() implies #[trigger] first[j] != '\\' by {
        assert(first.contains(first[j]));
    }
    if parts.len() == 1 {
        assert(s == first);
        lemma_finds(s, 0, s.len() as int, '\\');
        assert(seq![first] =~= parts);
    } else {
        let rest = parts.skip(1);
        lemma_joined_front(parts);
        assert forall|i: int| 0 <= i < rest.len() implies !(#[trigger] rest[i]).contains('\\') by {
            assert(!parts[i + 1].contains('\\'));
        }
        joined_parts_come_apart(rest);
        assert forall|j: int| 0 <= j < first.len() implies #[trigger] s[j] != '\\' by {
            assert(s[j] == first[j]);
        }
        assert(s[first.len() as int] == '\\');
        lemma_finds(s, 0, first.len() as int, '\\');
        assert(s.take(first.len() as int) =~= first);
        assert(s.skip((first.len() + 1) as int) =~= joined(rest));
        assert(seq![first] + rest =~= parts);
    }
}

proof fn lemma_kept_alike(p: Seq<Seq<char>>, i: int, q: Seq<Seq<char>>, j: int)
    requires
        0 <= i <= p.len(),
        0 <= j <= q.len(),
        p.skip(i) == q.skip(j),
        kept(p, i) == kept(q, j),
    ensures
        kept(p, p.len() as int) == kept(q, q.len() as int),
    decreases p.len() - i,
{
    let (left, right) = (p.skip(i), q.skip(j));
    assert(left.len() == p.len() - i);
    assert(right.len() == q.len() - j);
    if i < p.len() {
        assert(left[0] == p[i]);
        assert(right[0] == q[j]);
        assert(p.skip(i + 1) =~= p.skip(i).skip(1));
        assert(q.skip(j + 1) =~= q.skip(j).skip(1));
        lemma_kept_alike(p, i + 1, q, j + 1);
    }
}

proof fn lemma_kept_prefix(p: Seq<Seq<char>>, q: Seq<Seq<char>>, k: int)
    requires
        k <= p.len(),
        k <= q.len(),
        forall|i: int| 0 <= i < k ==> #[trigger] p[i] == q[i],
    ensures
        kept(p, k) == kept(q, k),
    decreases k,
{
    if k > 0 {
        lemma_kept_prefix(p, q, k - 1);
    }
}

/// Whether a part is the name of something: it is not empty, no dot and not two dots.
pub open spec fn plain(part: Seq<char>) -> bool {
    part.len() > 0 && part != seq!['.'] && part != seq!['.', '.']
}

/// A path whose parts are all names stays as it is.
pub proof fn plain_paths_stay(parts: Seq<Seq<char>>)
    requires
        parts_ok(parts),
        forall|i: int| 0 <= i < parts.len() ==> plain(#[trigger] parts[i]),
    ensures
        collapsed(joined(parts)) == joined(parts),
{
    joined_parts_come_apart(parts);
    lemma_plain_kept(parts, parts.len() as int);
    assert(parts.take(parts.len() as int) =~= parts);
}

proof fn lemma_plain_kept(parts: Seq<Seq<char>>, k: int)
    requires
        0 <= k <= parts.len(),
        forall|i: int| 0 <= i < parts.len() ==> plain(#[trigger] parts[i]),
    ensures
        kept(parts, k) == parts.take(k),
    decreases k,
{
    if k > 0 {
        lemma_plain_kept(parts, k - 1);
        assert(plain(parts[k - 1]));
        assert(parts.take(k - 1).push(parts[k - 1]) =~= parts.take(k));
    } else {
        assert(parts.take(0) =~= Seq::empty());
    }
}

/// A part that is empty or a dot can be left out of a path.
pub proof fn dots_lead_nowhere(a: Seq<Seq<char>>, b: Seq<Seq<char>>, part: Seq<char>)
    requires
        parts_ok(a + b),
        part.len() == 0 || part == seq!['.'],
    ensures
        collapsed(joined(a + seq![part] + b)) == collapsed(joined(a + b)),
{
    let p = a + seq![part] + b;
    let q = a + b;
    assert forall|i: int| 0 <= i < p.len() implies !(#[trigger] p[i]).contains('\\') by {
        if i < a.len() {
            assert(!q[i].contains('\\'));
        } else if i > a.len() {
            assert(!q[i - 1].contains('\\'));
        }
    }
    joined_parts_come_apart(p);
    joined_parts_come_apart(q);
    let n = a.len() as int;
    lemma_kept_prefix(p, q, n);
    assert(p[n] == part);
    assert(kept(p, n + 1) == add_part(kept(p, n), p[n]));
    assert(p.skip(n + 1) =~= q.skip(n));
    lemma_kept_alike(p, n + 1, q, n);
}

/// Two dots behind a name take the name back.
pub proof fn two_dots_take_a_name_back(a: Seq<Seq<char>>, b: Seq<Seq<char>>, name: Seq<char>)
    requires
        parts_ok(a + b),
        plain(name),
        !name.contains('\\'),
    ensures
        collapsed(joined(a + seq![name, seq!['.', '.']] + b)) == collapsed(joined(a + b)),
{
    let up = seq!['.', '.'];
    let p = a + seq![name, up] + b;
    let q = a + b;
    assert forall|i: int| 0 <= i < p.len() implies !(#[trigger] p[i]).contains('\\') by {
        if i < a.len() {
            assert(!q[i].contains('\\'));
        } else if i > a.len() + 1 {
            assert(!q[i - 2].contains('\\'));
        }
    }
    joined_parts_come_apart(p);
    joined_parts_come_apart(q);
    let n = a.len() as int;
    lemma_kept_prefix(p, q, n);
    assert(p[n] == name && p[n + 1] == up);
    assert(kept(p, n + 1) == kept(p, n).push(name));
    assert(kept(p, n + 2) == add_part(kept(p, n + 1), p[n + 1]));
    assert(kept(p, n).push(name).drop_last() =~= kept(p, n));
    assert(p.skip(n + 2) =~= q.skip(n));
    lemma_kept_alike(p, n + 2, q, n);
}

/// Two dots in front of everything lead nowhere.
pub proof fn two_dots_stop_at_the_root(b: Seq<Seq<char>>)
    requires
        parts_ok(b),
    ensures
        collapsed(joined(seq![seq!['.', '.']] + b)) == collapsed(joined(b)),
{
    let up = seq!['.', '.'];
    let p = seq![up] + b;
    assert forall|i: int| 0 <= i < p.len() implies !(#[trigger] p[i]).contains('\\') by {
        if i > 0 {
            assert(!b[i - 1].contains('\\'));
        }
    }
    joined_parts_come_apart(p);
    joined_parts_come_apart(b);
    assert(p[0] == up);
    assert(kept(p, 1) == add_part(kept(p, 0), p[0]));
    assert(p.skip(1) =~= b.skip(0));
    lemma_kept_alike(p, 1, b, 0);
}

/// A drive, or the two backslashes of a network, stay in front of a path.
pub proof fn roots_stay(letter: char, separator: char, s: Seq<char>)
    requires
        (letter as int) < 0x80,
    ensures
        canonical(seq![letter, ':', separator] + s) == seq![letter, ':', separator] + collapsed(s),
        canonical(seq!['\\', '\\'] + s) == seq!['\\', '\\'] + collapsed(s) || (s.len() > 0 && s[0]
            == ':') || names_drive(seq!['\\', '\\'] + s),
{
    let root = seq![letter, ':', separator];
    assert((root + s).take(3) =~= root);
    assert((root + s).skip(3) =~= s);
    let net = seq!['\\', '\\'];
    assert((net + s).skip(2) =~= s);
    let _ = is_network(net + s);
}

proof fn lemma_without_end(path: Seq<char>, n: nat)
    requires
        path.len() > 0 ==> path.last() != '\\',
    ensures
        without_end(path + Seq::new(n, |i: int| '\\')) == path,
    decreases n,
{
    let all = path + Seq::new(n, |i: int| '\\');
    if n > 0 {
        assert(all.last() == '\\');
        assert(all.drop_last() =~= path + Seq::new((n - 1) as nat, |i: int| '\\'));
        lemma_without_end(path, (n - 1) as nat);
    } else {
        assert(all =~= path);
    }
}

/// A name that does not start at a root follows the directory, with one backslash between them
/// however many the directory ends with.
pub proof fn relative_names_follow_the_directory(directory: Seq<char>, n: nat, name: Seq<char>)
    requires
        directory.len() > 0 ==> directory.last() != '\\',
        !directory.contains('/'),
        !name.contains('/'),
        name.len() > 0 ==> name[0] != '\\',
        name.len() >= 3 ==> name[1] != ':',
    ensures
        resolved(directory + Seq::new(n, |i: int| '\\'), name) == directory + seq!['\\'] + name,
{
    let cwd = directory + Seq::new(n, |i: int| '\\');
    assert forall|i: int| 0 <= i < directory.len() implies directory[i] != '/' by {
        assert(directory.contains(directory[i]));
    }
    assert forall|i: int| 0 <= i < name.len() implies name[i] != '/' by {
        assert(name.contains(name[i]));
    }
    assert(backslashed(cwd) =~= cwd);
    assert(backslashed(name) =~= name);
    lemma_without_end(directory, n);
    lemma_without_end(directory, 0);
    assert(directory + Seq::new(0, |i: int| '\\') =~= directory);
    assert(!absolute(name));
}

/// The drive of a directory is its first two characters where they are ASCII, its first one where that
/// takes two bytes, and `C:` where neither holds.
pub proof fn drives_are_two_bytes(a: char, b: char, rest: Seq<char>)
    ensures
        (a as int) < 0x80 && (b as int) < 0x80 ==> drive_of(seq![a, b] + rest) == seq![a, b],
        (a as int) < 0x80 && (b as int) >= 0x80 ==> drive_of(seq![a, b] + rest) == seq!['C', ':'],
        0x80 <= a as int && (a as int) < 0x800 ==> drive_of(seq![a] + rest) == seq![a],
        (a as int) >= 0x800 ==> drive_of(seq![a] + rest) == seq!['C', ':'],
        (a as int) < 0x80 ==> drive_of(seq![a]) == seq!['C', ':'],
        drive_of(Seq::empty()) == seq!['C', ':'],
{
    let two = seq![a, b] + rest;
    assert(two[0] == a && two[1] == b);
    assert(two.take(2) =~= seq![a, b]);
    let one = seq![a] + rest;
    assert(one[0] == a);
    assert(one.take(1) =~= seq![a]);
}

/// A name that starts with a drive or two backslashes needs no directory, and one that starts with a
/// single backslash takes its drive only.
pub proof fn rooted_names_leave_the_directory(directory: Seq<char>, letter: char, rest: Seq<char>)
    requires
        (letter as int) < 0x80,
        directory.len() >= 2,
        (directory[0] as int) < 0x80,
        directory[1] == ':',
        rest.len() > 0 ==> rest[0] != '\\' && rest[0] != ':',
    ensures
        combined(directory, seq![letter, ':', '\\'] + rest) == seq![letter, ':', '\\'] + rest,
        combined(directory, seq!['\\', '\\'] + rest) == seq!['\\', '\\'] + rest,
        combined(directory, seq!['\\'] + rest) == directory.take(2) + seq!['\\'] + rest,
{
    let rooted = seq!['\\'] + rest;
    assert(rest.len() > 0 ==> rooted[1] == rest[0]);
    assert(!absolute(rooted));
    assert(drive_of(directory) == directory.take(2));
    assert(directory.take(2) + rooted =~= directory.take(2) + seq!['\\'] + rest);
    assert(is_slash('\\'));
    let a = seq![letter, ':', '\\'] + rest;
    assert(names_drive(a) && a[2] == '\\');
    let b = seq!['\\', '\\'] + rest;
    assert(b[0] == '\\' && b[1] == '\\');
}

} // verus!
