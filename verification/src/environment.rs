//! The environment of a process, its current directory, and the flags of its parameters.

use vstd::prelude::*;

use crate::activation_manifest::xml::{ascii_lower, find_unit, first_unit, utf16_of};
use crate::utf16::{
    chars_of, decode, decoded, decoding_undoes_encoding, encoded, encoding_is_piecewise,
    lemma_char, push_chars, push_encoded, string_of, zeros_are_kept,
};

pub mod laws;

verus! {

/// The flag of parameters whose texts are reached by pointers.
pub const RTL_USER_PROC_PARAMS_NORMALIZED: u32 = 1;

/// The variables of a process, in the order in which they were made.
#[derive(Clone, Debug, PartialEq, Eq)]
pub struct Environment {
    pub vars: Vec<(String, String)>,
}

/// The directory that relative paths start from.
#[derive(Clone, Debug, PartialEq, Eq)]
pub struct CurrentDirectory {
    pub path: String,
}

/// The names and values of variables.
pub type Pairs = Seq<(Seq<char>, Seq<char>)>;

impl View for Environment {
    type V = Pairs;

    open spec fn view(&self) -> Pairs {
        pairs(self.vars@)
    }
}

impl View for CurrentDirectory {
    type V = Seq<char>;

    open spec fn view(&self) -> Seq<char> {
        self.path@
    }
}

/// The names and values of variables.
pub open spec fn pairs(vars: Seq<(String, String)>) -> Pairs {
    vars.map_values(|v: (String, String)| (v.0@, v.1@))
}

// ---------------------------------------------------------------------------------------------
// Variables
// ---------------------------------------------------------------------------------------------

/// Whether two names are equal when the case of ASCII letters does not count.
pub open spec fn same_name(a: Seq<char>, b: Seq<char>) -> bool {
    a.len() == b.len() && forall|i: int|
        0 <= i < a.len() ==> ascii_lower(#[trigger] a[i] as int) == ascii_lower(b[i] as int)
}

/// The first variable of a name at or behind `i`.
pub open spec fn find_name(vars: Pairs, name: Seq<char>, i: int) -> Option<int>
    decreases vars.len() - i,
{
    if i >= vars.len() {
        None
    } else if same_name(vars[i].0, name) {
        Some(i)
    } else {
        find_name(vars, name, i + 1)
    }
}

/// The value of a name.
pub open spec fn value_of(vars: Pairs, name: Seq<char>) -> Option<Seq<char>> {
    match find_name(vars, name, 0) {
        Some(i) => Some(vars[i].1),
        None => None,
    }
}

/// The variables once one was set, or deleted where there is no value.
pub open spec fn with_value(vars: Pairs, name: Seq<char>, value: Option<Seq<char>>) -> Pairs {
    match (find_name(vars, name, 0), value) {
        (Some(i), Some(v)) => vars.update(i, (vars[i].0, v)),
        (Some(i), None) => vars.remove(i),
        (None, Some(v)) => vars.push((name, v)),
        (None, None) => vars,
    }
}

/// A text that may be absent.
pub open spec fn text_of(value: Option<&str>) -> Option<Seq<char>> {
    match value {
        Some(v) => Some(v@),
        None => None,
    }
}

/// The first place at or behind `i` where a character stands.
pub open spec fn first_char(s: Seq<char>, i: int, c: char) -> Option<int>
    decreases s.len() - i,
{
    if i >= s.len() {
        None
    } else if s[i] == c {
        Some(i)
    } else {
        first_char(s, i + 1, c)
    }
}

/// The text from `i` on with names between percent signs replaced by their values. A name that is
/// not known stays as it is.
pub open spec fn expanded_from(vars: Pairs, s: Seq<char>, i: int) -> Seq<char>
    decreases s.len() - i,
{
    if i >= s.len() {
        Seq::empty()
    } else if s[i] == '%' && first_char(s, i + 1, '%') is Some {
        let end = first_char(s, i + 1, '%')->Some_0;
        if i < end < s.len() {
            let name = s.subrange(i + 1, end);
            let text = match value_of(vars, name) {
                Some(v) => v,
                None => seq!['%'] + name + seq!['%'],
            };
            text + expanded_from(vars, s, end + 1)
        } else {
            Seq::empty()
        }
    } else {
        seq![s[i]] + expanded_from(vars, s, i + 1)
    }
}

/// The variable of a line; `None` where its name would be empty or it has no equals sign.
pub open spec fn pair_of(line: Seq<u16>) -> Option<(Seq<char>, Seq<char>)> {
    let text = decoded(line);
    match first_char(text, 0, '=') {
        Some(k) => if k > 0 {
            Some((text.take(k), text.skip(k + 1)))
        } else {
            None
        },
        None => None,
    }
}

/// The variables of a block: of each line that a zero ends, up to the first line that is empty.
pub open spec fn pairs_of(block: Seq<u16>) -> Pairs
    decreases block.len(),
{
    match first_unit(block, 0, 0) {
        Some(e) => if 0 < e < block.len() {
            let rest = pairs_of(block.skip(e + 1));
            match pair_of(block.take(e)) {
                Some(pair) => seq![pair] + rest,
                None => rest,
            }
        } else {
            Seq::empty()
        },
        None => Seq::empty(),
    }
}

/// The line of a variable.
pub open spec fn line_of(pair: (Seq<char>, Seq<char>)) -> Seq<u16> {
    encoded(pair.0) + seq![0x3du16] + encoded(pair.1)
}

/// The block of the variables from `i` on.
pub open spec fn block_from(vars: Pairs, i: int) -> Seq<u16>
    decreases vars.len() - i,
{
    if i >= vars.len() {
        seq![0u16]
    } else {
        line_of(vars[i]) + seq![0u16] + block_from(vars, i + 1)
    }
}

/// Whether variables can be stored in a block: no name is empty or has an equals sign, and nothing
/// has a zero.
pub open spec fn storable(vars: Pairs) -> bool {
    forall|i: int|
        0 <= i < vars.len() ==> (#[trigger] vars[i]).0.len() > 0 && !vars[i].0.contains('=')
            && !vars[i].0.contains('\0') && !vars[i].1.contains('\0')
}

proof fn lemma_first_char(s: Seq<char>, i: int, k: int, c: char)
    requires
        0 <= i <= k < s.len(),
        s[k] == c,
        forall|j: int| i <= j < k ==> s[j] != c,
    ensures
        first_char(s, i, c) == Some(k),
    decreases k - i,
{
    if i < k {
        lemma_first_char(s, i + 1, k, c);
    }
}

proof fn lemma_first_zero(s: Seq<u16>, i: int, k: int)
    requires
        0 <= i <= k < s.len(),
        s[k] == 0,
        forall|j: int| i <= j < k ==> s[j] != 0,
    ensures
        first_unit(s, i, 0) == Some(k),
    decreases k - i,
{
    if i < k {
        lemma_first_zero(s, i + 1, k);
    }
}

/// Variables that can be stored read back from their block, in order.
pub proof fn blocks_read_back(vars: Pairs)
    requires
        storable(vars),
    ensures
        pairs_of(block_from(vars, 0)) == vars,
{
    lemma_blocks_read_back(vars, 0);
    assert(vars.skip(0) =~= vars);
}

proof fn lemma_blocks_read_back(vars: Pairs, i: int)
    requires
        storable(vars),
        0 <= i <= vars.len(),
    ensures
        pairs_of(block_from(vars, i)) == vars.skip(i),
    decreases vars.len() - i,
{
    let block = block_from(vars, i);
    if i >= vars.len() {
        lemma_first_zero(block, 0, 0);
        assert(vars.skip(i) =~= Seq::empty());
    } else {
        let (name, value) = vars[i];
        let line = line_of(vars[i]);
        let n = line.len() as int;
        lemma_blocks_read_back(vars, i + 1);
        zeros_are_kept(name);
        zeros_are_kept(value);
        assert forall|j: int| 0 <= j < n implies block[j] != 0 by {
            assert(block[j] == line[j]);
            let m = encoded(name).len() as int;
            if j < m {
                assert(encoded(name)[j] == line[j]);
            } else if j > m {
                assert(encoded(value)[j - m - 1] == line[j]);
            }
        }
        assert(block[n] == 0);
        lemma_first_zero(block, 0, n);
        assert(block.take(n) =~= line);
        assert(block.skip(n + 1) =~= block_from(vars, i + 1));
        let text = name + seq!['='] + value;
        encoding_is_piecewise(name + seq!['='], value);
        encoding_is_piecewise(name, seq!['=']);
        assert(seq!['='].skip(1) =~= Seq::empty());
        reveal_with_fuel(encoded, 2);
        assert(seq!['='][0] as int == 0x3d);
        assert(encoded(seq!['=']) =~= seq![0x3du16]);
        decoding_undoes_encoding(text);
        assert(encoded(text) =~= line);
        assert forall|j: int| 0 <= j < name.len() implies text[j] != '=' by {
            assert(text[j] == name[j]);
        }
        lemma_first_char(text, 0, name.len() as int, '=');
        assert(text.take(name.len() as int) =~= name);
        assert(text.skip(name.len() as int + 1) =~= value);
        assert(seq![vars[i]] + vars.skip(i + 1) =~= vars.skip(i));
    }
}

proof fn lemma_find_name(vars: Pairs, name: Seq<char>, i: int)
    requires
        0 <= i <= vars.len(),
    ensures
        match find_name(vars, name, i) {
            Some(k) => i <= k < vars.len() && same_name(vars[k].0, name) && forall|j: int|
                i <= j < k ==> !same_name((#[trigger] vars[j]).0, name),
            None => forall|j: int| i <= j < vars.len() ==> !same_name((#[trigger] vars[j]).0, name),
        },
    decreases vars.len() - i,
{
    if i < vars.len() && !same_name(vars[i].0, name) {
        lemma_find_name(vars, name, i + 1);
    }
}

proof fn lemma_found(vars: Pairs, name: Seq<char>, i: int, k: int)
    requires
        0 <= i <= k < vars.len(),
        same_name(vars[k].0, name),
        forall|j: int| i <= j < k ==> !same_name((#[trigger] vars[j]).0, name),
    ensures
        find_name(vars, name, i) == Some(k),
    decreases k - i,
{
    if i < k {
        lemma_found(vars, name, i + 1, k);
    }
}

/// A variable that was set has the value that it was set to, however its name is spelled.
pub proof fn set_values_are_found(vars: Pairs, name: Seq<char>, value: Seq<char>, spelling: Seq<char>)
    requires
        same_name(name, spelling),
    ensures
        value_of(with_value(vars, name, Some(value)), spelling) == Some(value),
{
    lemma_find_name(vars, name, 0);
    let after = with_value(vars, name, Some(value));
    let k = match find_name(vars, name, 0) {
        Some(k) => k,
        None => vars.len() as int,
    };
    assert(same_name(after[k].0, name));
    assert forall|j: int| 0 <= j < k implies !same_name((#[trigger] after[j]).0, spelling) by {
        assert(after[j] == vars[j]);
        if same_name(after[j].0, spelling) {
            assert forall|t: int| 0 <= t < name.len() implies ascii_lower(
                #[trigger] vars[j].0[t] as int,
            ) == ascii_lower(name[t] as int) by {
                assert(ascii_lower(name[t] as int) == ascii_lower(spelling[t] as int));
            }
        }
    }
    assert(same_name(after[k].0, spelling)) by {
        assert forall|t: int| 0 <= t < spelling.len() implies ascii_lower(
            #[trigger] after[k].0[t] as int,
        ) == ascii_lower(spelling[t] as int) by {
            assert(ascii_lower(name[t] as int) == ascii_lower(spelling[t] as int));
        }
    }
    lemma_found(after, spelling, 0, k);
}

proof fn lemma_same_name(a: Seq<char>, b: Seq<char>, c: Seq<char>)
    requires
        same_name(a, b),
        same_name(a, c),
    ensures
        same_name(b, c),
{
    assert forall|i: int| 0 <= i < b.len() implies ascii_lower(#[trigger] b[i] as int)
        == ascii_lower(c[i] as int) by {
        let _ = a[i];
    }
}

/// Setting or deleting a variable leaves the values of all other names as they are.
pub proof fn other_values_stay(
    vars: Pairs,
    name: Seq<char>,
    value: Option<Seq<char>>,
    other: Seq<char>,
)
    requires
        !same_name(name, other),
    ensures
        value_of(with_value(vars, name, value), other) == value_of(vars, other),
{
    let after = with_value(vars, name, value);
    lemma_find_name(vars, name, 0);
    lemma_find_name(vars, other, 0);
    lemma_find_name(after, other, 0);
    if let Some(i) = find_name(vars, name, 0) {
        if same_name(vars[i].0, other) {
            lemma_same_name(vars[i].0, name, other);
        }
        if let Some(k) = find_name(vars, other, 0) {
            let at = if value is None && k > i {
                k - 1
            } else {
                k
            };
            assert forall|j: int| 0 <= j < at implies !same_name((#[trigger] after[j]).0, other) by {
                if value is None && j >= i {
                    assert(after[j] == vars[j + 1]);
                } else {
                    assert(after[j].0 == vars[j].0);
                }
            }
            assert(after[at] == vars[k]);
            lemma_found(after, other, 0, at);
        } else if let Some(k) = find_name(after, other, 0) {
            if value is None && k >= i {
                assert(after[k] == vars[k + 1]);
            } else {
                assert(after[k].0 == vars[k].0);
            }
        }
    } else if let Some(v) = value {
        if let Some(k) = find_name(vars, other, 0) {
            assert forall|j: int| 0 <= j < k implies !same_name((#[trigger] after[j]).0, other) by {
                assert(after[j] == vars[j]);
            }
            assert(after[k] == vars[k]);
            lemma_found(after, other, 0, k);
        } else if let Some(k) = find_name(after, other, 0) {
            assert(after[vars.len() as int] == (name, v));
            if k < vars.len() {
                assert(after[k] == vars[k]);
            }
        }
    }
}

/// A variable that was deleted has no value, where its name was there once.
pub proof fn deleted_values_are_gone(vars: Pairs, name: Seq<char>)
    requires
        forall|i: int, j: int|
            0 <= i < j < vars.len() && same_name((#[trigger] vars[i]).0, name) ==> !same_name(
                (#[trigger] vars[j]).0,
                name,
            ),
    ensures
        value_of(with_value(vars, name, None), name) is None,
{
    let after = with_value(vars, name, None);
    lemma_find_name(vars, name, 0);
    lemma_find_name(after, name, 0);
    if let Some(k) = find_name(after, name, 0) {
        let i = find_name(vars, name, 0)->Some_0;
        if k >= i {
            assert(after[k] == vars[k + 1]);
            assert(same_name(vars[i].0, name));
        } else {
            assert(after[k] == vars[k]);
        }
    }
}

/// The lower-case form of an ASCII letter; other characters as they are.
fn lower(c: char) -> (v: u32)
    ensures
        v == ascii_lower(c as int),
{
    let v: u32 = c as u32;
    if 0x41 <= v && v <= 0x5a {
        v + 0x20
    } else {
        v
    }
}

/// Whether two names are equal when the case of ASCII letters does not count.
fn names_equal(a: &Vec<char>, b: &Vec<char>) -> (equal: bool)
    ensures
        equal == same_name(a@, b@),
{
    if a.len() != b.len() {
        return false;
    }
    let mut i: usize = 0;
    while i < a.len()
        invariant
            i <= a@.len() == b@.len(),
            forall|j: int|
                0 <= j < i ==> ascii_lower(#[trigger] a@[j] as int) == ascii_lower(b@[j] as int),
        decreases a@.len() - i,
    {
        if lower(a[i]) != lower(b[i]) {
            assert(ascii_lower(a@[i as int] as int) != ascii_lower(b@[i as int] as int));
            return false;
        }
        i += 1;
    }
    true
}

/// The first place at or behind `from` where a character stands.
fn find_char(s: &Vec<char>, from: usize, c: char) -> (r: Option<usize>)
    requires
        from <= s@.len(),
    ensures
        match r {
            Some(k) => first_char(s@, from as int, c) == Some(k as int) && from <= k < s@.len(),
            None => first_char(s@, from as int, c) is None,
        },
{
    let mut i: usize = from;
    while i < s.len()
        invariant
            from <= i <= s@.len(),
            first_char(s@, from as int, c) == first_char(s@, i as int, c),
        decreases s@.len() - i,
    {
        if s[i] == c {
            return Some(i);
        }
        i += 1;
    }
    None
}

/// A part of a text.
fn part_of(s: &Vec<char>, from: usize, to: usize) -> (part: Vec<char>)
    requires
        from <= to <= s@.len(),
    ensures
        part@ == s@.subrange(from as int, to as int),
{
    let mut part: Vec<char> = Vec::new();
    push_chars(&mut part, vstd::slice::slice_subrange(s.as_slice(), from, to));
    assert(part@ =~= s@.subrange(from as int, to as int));
    part
}

impl Environment {
    /// No variables.
    pub fn new() -> (e: Self)
        ensures
            e@ == Seq::<(Seq<char>, Seq<char>)>::empty(),
    {
        let e = Environment { vars: Vec::new() };
        assert(e@ =~= Seq::empty());
        e
    }

    /// The variables of a block of lines, each with a zero behind it.
    pub fn from_block(block: &[u16]) -> (e: Self)
        ensures
            e@ == pairs_of(block@),
    {
        let mut vars: Vec<(String, String)> = Vec::new();
        let mut start: usize = 0;
        assert(block@.skip(0) =~= block@);
        assert(pairs_of(block@) =~= pairs(vars@) + pairs_of(block@.skip(0)));
        assert(block.len() <= usize::MAX);
        while start < block.len()
            invariant
                start <= block@.len() <= usize::MAX,
                pairs_of(block@) == pairs(vars@) + pairs_of(block@.skip(start as int)),
            decreases block@.len() - start,
        {
            let rest = vstd::slice::slice_subrange(block, start, block.len());
            assert(rest@ =~= block@.skip(start as int));
            let end: usize = match find_unit(rest, 0, 0) {
                Some(end) => end,
                None => {
                    assert(pairs(vars@) =~= pairs_of(block@));
                    return Environment { vars };
                },
            };
            if end == 0 {
                assert(pairs(vars@) =~= pairs_of(block@));
                return Environment { vars };
            }
            let line = vstd::slice::slice_subrange(rest, 0, end);
            assert(line@ =~= rest@.take(end as int));
            let ghost before = pairs(vars@);
            let text: Vec<char> = decode(line);
            let length: usize = text.len();
            assert(rest@.skip(end + 1) =~= block@.skip(start + end + 1));
            match find_char(&text, 0, '=') {
                Some(eq) => {
                    if eq != 0 {
                        let name = string_of(part_of(&text, 0, eq).as_slice());
                        let value = string_of(part_of(&text, eq + 1, length).as_slice());
                        assert(name@ =~= text@.take(eq as int));
                        assert(value@ =~= text@.skip(eq + 1));
                        vars.push((name, value));
                        assert(pairs(vars@) =~= before.push((name@, value@)));
                        assert(pairs_of(rest@) == seq![(name@, value@)] + pairs_of(
                            rest@.skip(end + 1),
                        ));
                        assert(before + pairs_of(rest@) =~= pairs(vars@) + pairs_of(
                            rest@.skip(end + 1),
                        ));
                    }
                },
                None => {},
            }
            start = start + end + 1;
        }
        assert(pairs(vars@) =~= pairs_of(block@));
        Environment { vars }
    }

    /// The variables as a block of lines, each with a zero behind it, and one more zero.
    pub fn to_block(&self) -> (out: Vec<u16>)
        ensures
            out@ == block_from(self@, 0),
    {
        let mut out: Vec<u16> = Vec::new();
        let mut i: usize = 0;
        assert(out@ + block_from(self@, 0) =~= block_from(self@, 0));
        while i < self.vars.len()
            invariant
                i <= self.vars@.len(),
                out@ + block_from(self@, i as int) == block_from(self@, 0),
            decreases self.vars@.len() - i,
        {
            let ghost before = out@;
            let pair = &self.vars[i];
            push_encoded(&mut out, chars_of(pair.0.as_str()).as_slice());
            out.push(0x3d);
            push_encoded(&mut out, chars_of(pair.1.as_str()).as_slice());
            out.push(0);
            assert(self@[i as int] == (pair.0@, pair.1@));
            assert(out@ =~= before + (line_of(self@[i as int]) + seq![0u16]));
            assert(before + block_from(self@, i as int) =~= out@ + block_from(self@, i + 1));
            i += 1;
        }
        out.push(0);
        out
    }

    /// How many variables there are.
    pub fn vars_len(&self) -> (n: usize)
        ensures
            n == self@.len(),
    {
        self.vars.len()
    }

    /// The name of the first variable.
    pub fn first_name(&self) -> (name: Option<&str>)
        ensures
            text_of(name) == if self@.len() > 0 {
                Some(self@[0].0)
            } else {
                None
            },
    {
        if self.vars.len() > 0 {
            Some(self.vars[0].0.as_str())
        } else {
            None
        }
    }

    /// Where the first variable of a name stands.
    fn position(&self, name: &Vec<char>) -> (r: Option<usize>)
        ensures
            match r {
                Some(k) => find_name(self@, name@, 0) == Some(k as int) && k < self@.len(),
                None => find_name(self@, name@, 0) is None,
            },
    {
        let mut i: usize = 0;
        while i < self.vars.len()
            invariant
                i <= self.vars@.len(),
                find_name(self@, name@, 0) == find_name(self@, name@, i as int),
            decreases self.vars@.len() - i,
        {
            assert(self@[i as int].0 == self.vars@[i as int].0@);
            let own: Vec<char> = chars_of(self.vars[i].0.as_str());
            if names_equal(&own, name) {
                return Some(i);
            }
            i += 1;
        }
        None
    }

    /// The value of a name.
    pub fn query(&self, name: &str) -> (value: Option<&str>)
        ensures
            text_of(value) == value_of(self@, name@),
    {
        self.lookup(&chars_of(name))
    }

    fn lookup(&self, name: &Vec<char>) -> (value: Option<&str>)
        ensures
            text_of(value) == value_of(self@, name@),
    {
        match self.position(name) {
            Some(i) => Some(self.vars[i].1.as_str()),
            None => None,
        }
    }

    /// Set a variable, or delete it where there is no value.
    pub fn set(&mut self, name: &str, value: Option<&str>)
        ensures
            final(self)@ == with_value(old(self)@, name@, text_of(value)),
    {
        let position: Option<usize> = self.position(&chars_of(name));
        match position {
            Some(i) => {
                let (own, _) = self.vars.remove(i);
                match value {
                    Some(v) => {
                        self.vars.insert(i, (own, v.to_owned()));
                    },
                    None => {},
                }
            },
            None => {
                match value {
                    Some(v) => {
                        self.vars.push((name.to_owned(), v.to_owned()));
                    },
                    None => {},
                }
            },
        }
        assert(self@ =~= with_value(old(self)@, name@, text_of(value)));
    }

    /// A text with names between percent signs replaced by their values.
    pub fn expand(&self, input: &str) -> (out: String)
        ensures
            out@ == expanded_from(self@, input@, 0),
    {
        let chars: Vec<char> = chars_of(input);
        let mut out: Vec<char> = Vec::new();
        let mut i: usize = 0;
        assert(out@ + expanded_from(self@, input@, 0) =~= expanded_from(self@, input@, 0));
        while i < chars.len()
            invariant
                i <= chars@.len(),
                chars@ == input@,
                out@ + expanded_from(self@, input@, i as int) == expanded_from(self@, input@, 0),
            decreases chars@.len() - i,
        {
            let ghost before = out@;
            let close: Option<usize> = if chars[i] == '%' {
                find_char(&chars, i + 1, '%')
            } else {
                None
            };
            match close {
                Some(end) => {
                    let name: Vec<char> = part_of(&chars, i + 1, end);
                    match self.lookup(&name) {
                        Some(v) => {
                            push_chars(&mut out, chars_of(v).as_slice());
                        },
                        None => {
                            out.push('%');
                            push_chars(&mut out, name.as_slice());
                            out.push('%');
                            assert(out@ =~= before + (seq!['%'] + name@ + seq!['%']));
                        },
                    }
                    assert(before + expanded_from(self@, input@, i as int) =~= out@ + expanded_from(
                        self@,
                        input@,
                        end + 1,
                    ));
                    i = end + 1;
                },
                None => {
                    out.push(chars[i]);
                    assert(before + expanded_from(self@, input@, i as int) =~= out@ + expanded_from(
                        self@,
                        input@,
                        i + 1,
                    ));
                    i += 1;
                },
            }
        }
        assert(out@ =~= expanded_from(self@, input@, 0));
        string_of(out.as_slice())
    }
}

impl Default for Environment {
    fn default() -> (e: Self)
        ensures
            e@ == Seq::<(Seq<char>, Seq<char>)>::empty(),
    {
        Self::new()
    }
}

// ---------------------------------------------------------------------------------------------
// Paths
// ---------------------------------------------------------------------------------------------

/// A path without the backslashes at its end.
pub open spec fn without_end(path: Seq<char>) -> Seq<char>
    decreases path.len(),
{
    if path.len() > 0 && path.last() == '\\' {
        without_end(path.drop_last())
    } else {
        path
    }
}

/// Whether a character is a separator.
pub open spec fn is_slash(c: char) -> bool {
    c == '\\' || c == '/'
}

/// Whether a path starts with a letter or the like and a colon, and goes on behind them.
pub open spec fn names_drive(path: Seq<char>) -> bool {
    path.len() >= 3 && (path[0] as int) < 0x80 && path[1] == ':'
}

/// Whether a path starts with two backslashes.
pub open spec fn is_network(path: Seq<char>) -> bool {
    path.len() >= 2 && path[0] == '\\' && path[1] == '\\'
}

/// Whether a path is absolute.
pub open spec fn absolute(path: Seq<char>) -> bool {
    (names_drive(path) && is_slash(path[2])) || is_network(path)
}

/// Whether the first three characters of a path that names a drive take one byte each.
pub open spec fn drive_is_plain(path: Seq<char>) -> bool {
    names_drive(path) ==> (path[2] as int) < 0x80
}

/// The parts of a text between backslashes.
pub open spec fn parts_of(s: Seq<char>) -> Seq<Seq<char>>
    decreases s.len(),
{
    match first_char(s, 0, '\\') {
        Some(k) => if 0 <= k < s.len() {
            seq![s.take(k)] + parts_of(s.skip(k + 1))
        } else {
            Seq::empty()
        },
        None => seq![s],
    }
}

/// The parts that are left of the first `k`: parts that are empty or a dot are dropped, and two dots
/// drop what is before them.
pub open spec fn kept(parts: Seq<Seq<char>>, k: int) -> Seq<Seq<char>>
    decreases k,
{
    if k <= 0 {
        Seq::empty()
    } else {
        add_part(kept(parts, k - 1), parts[k - 1])
    }
}

/// What is left once one more part was read.
pub open spec fn add_part(before: Seq<Seq<char>>, part: Seq<char>) -> Seq<Seq<char>> {
    if part.len() == 0 || part == seq!['.'] {
        before
    } else if part == seq!['.', '.'] {
        if before.len() > 0 {
            before.drop_last()
        } else {
            before
        }
    } else {
        before.push(part)
    }
}

/// Parts with backslashes between them.
pub open spec fn joined(parts: Seq<Seq<char>>) -> Seq<char>
    decreases parts.len(),
{
    if parts.len() == 0 {
        Seq::empty()
    } else if parts.len() == 1 {
        parts[0]
    } else {
        joined(parts.drop_last()) + seq!['\\'] + parts.last()
    }
}

/// A path without parts that lead nowhere.
pub open spec fn collapsed(s: Seq<char>) -> Seq<char> {
    joined(kept(parts_of(s), parts_of(s).len() as int))
}

/// A path without parts that lead nowhere; what it starts with stays.
pub open spec fn canonical(path: Seq<char>) -> Seq<char> {
    if names_drive(path) {
        path.take(3) + collapsed(path.skip(3))
    } else if is_network(path) {
        seq!['\\', '\\'] + collapsed(path.skip(2))
    } else {
        collapsed(path)
    }
}

/// The drive of a directory: its first two bytes where they end with a character.
pub open spec fn drive_of(path: Seq<char>) -> Seq<char> {
    if path.len() >= 2 && (path[0] as int) < 0x80 && (path[1] as int) < 0x80 {
        path.take(2)
    } else if path.len() >= 1 && 0x80 <= path[0] as int && (path[0] as int) < 0x800 {
        path.take(1)
    } else {
        seq!['C', ':']
    }
}

/// A name behind the directory that it is relative to.
pub open spec fn combined(path: Seq<char>, name: Seq<char>) -> Seq<char> {
    if absolute(name) {
        name
    } else if name.len() > 0 && name[0] == '\\' {
        drive_of(path) + name
    } else {
        without_end(path) + seq!['\\'] + name
    }
}

/// A path with slashes turned into backslashes.
pub open spec fn backslashed(path: Seq<char>) -> Seq<char> {
    path.map_values(
        |c: char|
            if c == '/' {
                '\\'
            } else {
                c
            },
    )
}

/// The path that a name stands for when it is relative to a directory, slashes turned into
/// backslashes.
pub open spec fn resolved(cwd: Seq<char>, name: Seq<char>) -> Seq<char> {
    combined(without_end(backslashed(cwd)), backslashed(name))
}

proof fn lemma_parts_without_slash(s: Seq<char>)
    requires
        !s.contains('/'),
    ensures
        forall|i: int| 0 <= i < parts_of(s).len() ==> !(#[trigger] parts_of(s)[i]).contains('/'),
    decreases s.len(),
{
    if let Some(k) = first_char(s, 0, '\\') {
        if 0 <= k < s.len() {
            let rest = s.skip(k + 1);
            assert forall|i: int| 0 <= i < rest.len() implies rest[i] != '/' by {
                assert(s[k + 1 + i] != '/');
            }
            lemma_parts_without_slash(rest);
            let head = s.take(k);
            assert forall|i: int| 0 <= i < head.len() implies head[i] != '/' by {
                assert(s[i] != '/');
            }
            assert forall|i: int| 0 <= i < parts_of(s).len() implies !(#[trigger] parts_of(
                s,
            )[i]).contains('/') by {
                if i > 0 {
                    assert(parts_of(s)[i] == parts_of(rest)[i - 1]);
                }
            }
        }
    }
}

proof fn lemma_kept_without_slash(parts: Seq<Seq<char>>, k: int)
    requires
        0 <= k <= parts.len(),
        forall|i: int| 0 <= i < parts.len() ==> !(#[trigger] parts[i]).contains('/'),
    ensures
        forall|i: int| 0 <= i < kept(parts, k).len() ==> !(#[trigger] kept(parts, k)[i]).contains('/'),
    decreases k,
{
    if k > 0 {
        lemma_kept_without_slash(parts, k - 1);
        let before = kept(parts, k - 1);
        let after = kept(parts, k);
        assert forall|i: int| 0 <= i < after.len() implies !(#[trigger] after[i]).contains('/') by {
            if i < before.len() {
                assert(after[i] == before[i]);
            } else {
                assert(after[i] == parts[k - 1]);
            }
        }
    }
}

proof fn lemma_joined_without_slash(parts: Seq<Seq<char>>)
    requires
        forall|i: int| 0 <= i < parts.len() ==> !(#[trigger] parts[i]).contains('/'),
    ensures
        !joined(parts).contains('/'),
    decreases parts.len(),
{
    if parts.len() > 1 {
        let front = parts.drop_last();
        assert forall|i: int| 0 <= i < front.len() implies !(#[trigger] front[i]).contains('/') by {
            assert(front[i] == parts[i]);
        }
        lemma_joined_without_slash(front);
        let last = parts[parts.len() - 1];
        assert(!last.contains('/'));
        let all = joined(parts);
        let n = joined(front).len() as int;
        assert forall|i: int| 0 <= i < all.len() implies all[i] != '/' by {
            if i < n {
                assert(all[i] == joined(front)[i]);
            } else if i > n {
                assert(all[i] == last[i - n - 1]);
            }
        }
    }
}

proof fn lemma_end_is_start(path: Seq<char>)
    ensures
        without_end(path).len() <= path.len(),
        without_end(path) == path.take(without_end(path).len() as int),
    decreases path.len(),
{
    if path.len() > 0 && path.last() == '\\' {
        lemma_end_is_start(path.drop_last());
        let n = without_end(path).len() as int;
        assert(path.drop_last().take(n) =~= path.take(n));
    } else {
        assert(path.take(path.len() as int) =~= path);
    }
}

proof fn lemma_encoded_without_slash(s: Seq<char>)
    requires
        !s.contains('/'),
    ensures
        !encoded(s).contains(0x2f),
    decreases s.len(),
{
    if s.len() > 0 {
        let rest = s.skip(1);
        assert forall|i: int| 0 <= i < rest.len() implies rest[i] != '/' by {
            assert(s[i + 1] != '/');
        }
        lemma_encoded_without_slash(rest);
        lemma_char(s[0]);
        assert(s[0] != '/');
        let head = utf16_of(s[0] as int);
        assert forall|i: int| 0 <= i < encoded(s).len() implies encoded(s)[i] != 0x2f by {
            if i >= head.len() {
                assert(encoded(s)[i] == encoded(rest)[i - head.len()]);
            }
        }
    }
}

/// A full path holds no slash: slashes separate its parts just as backslashes do.
pub proof fn full_paths_hold_no_slash(cwd: Seq<char>, name: Seq<char>)
    ensures
        !canonical(resolved(cwd, name)).contains('/'),
        !encoded(canonical(resolved(cwd, name))).contains(0x2f),
{
    let c = without_end(backslashed(cwd));
    let n = backslashed(name);
    let path = resolved(cwd, name);
    lemma_end_is_start(backslashed(cwd));
    lemma_end_is_start(c);
    assert forall|i: int| 0 <= i < path.len() implies path[i] != '/' by {
        if absolute(n) {
        } else if n.len() > 0 && n[0] == '\\' {
            let k = drive_of(c).len() as int;
            if i < k {
                assert(path[i] == drive_of(c)[i]);
            } else {
                assert(path[i] == n[i - k]);
            }
        } else {
            let k = without_end(c).len() as int;
            if i < k {
                assert(path[i] == c[i]);
            } else if i > k {
                assert(path[i] == n[i - k - 1]);
            }
        }
    }
    let skipped: int = if names_drive(path) {
        3
    } else if is_network(path) {
        2
    } else {
        0
    };
    let rest = path.skip(skipped);
    assert(path.skip(0) =~= path);
    assert forall|i: int| 0 <= i < rest.len() implies rest[i] != '/' by {
        assert(path[skipped + i] != '/');
    }
    let parts = parts_of(rest);
    lemma_parts_without_slash(rest);
    lemma_kept_without_slash(parts, parts.len() as int);
    lemma_joined_without_slash(kept(parts, parts.len() as int));
    let all = canonical(path);
    let tail = collapsed(rest);
    assert forall|i: int| 0 <= i < all.len() implies all[i] != '/' by {
        if i < skipped {
            assert(path[i] != '/');
        } else {
            assert(all[i] == tail[i - skipped]);
        }
    }
    lemma_encoded_without_slash(all);
}

/// What is left of a path is neither empty nor a dot nor two dots, part by part.
pub proof fn kept_parts_lead_somewhere(s: Seq<char>, k: int, i: int)
    requires
        0 <= k,
        0 <= i < kept(parts_of(s), k).len(),
    ensures
        kept(parts_of(s), k)[i].len() > 0,
        kept(parts_of(s), k)[i] != seq!['.'],
        kept(parts_of(s), k)[i] != seq!['.', '.'],
    decreases k,
{
    let before = kept(parts_of(s), k - 1);
    if i < before.len() {
        kept_parts_lead_somewhere(s, k - 1, i);
    }
}

/// A directory with a backslash at its end.
pub open spec fn shown(path: Seq<char>) -> Seq<char> {
    if path.len() > 0 && path.last() == '\\' {
        path
    } else {
        path.push('\\')
    }
}

/// A directory that was set ends with one backslash, and no more, when it is read.
pub proof fn directories_end_with_one_backslash(path: Seq<char>)
    ensures
        shown(without_end(path)) == without_end(path).push('\\'),
        without_end(without_end(path)) == without_end(path),
    decreases path.len(),
{
    if path.len() > 0 && path.last() == '\\' {
        directories_end_with_one_backslash(path.drop_last());
    }
}

/// The number of a character.
fn code(c: char) -> (v: u32)
    ensures
        v == c as int,
{
    c as u32
}

/// A path without the backslashes at its end.
fn trim_end(path: &Vec<char>) -> (r: Vec<char>)
    ensures
        r@ == without_end(path@),
{
    let mut end: usize = path.len();
    assert(path@.take(end as int) =~= path@);
    while end > 0 && path[end - 1] == '\\'
        invariant
            end <= path@.len(),
            without_end(path@) == without_end(path@.take(end as int)),
        decreases end,
    {
        assert(path@.take(end as int).drop_last() =~= path@.take(end - 1));
        end -= 1;
    }
    let r = part_of(path, 0, end);
    assert(r@ =~= path@.take(end as int));
    r
}

/// Whether a path is absolute.
pub fn is_absolute(p: &str) -> (yes: bool)
    ensures
        yes == absolute(p@),
{
    is_absolute_text(&chars_of(p))
}

fn is_absolute_text(p: &Vec<char>) -> (yes: bool)
    ensures
        yes == absolute(p@),
{
    (p.len() >= 3 && code(p[0]) < 0x80 && p[1] == ':' && (p[2] == '\\' || p[2] == '/')) || (p.len()
        >= 2 && p[0] == '\\' && p[1] == '\\')
}

/// The texts of parts.
pub open spec fn part_texts(parts: Seq<Vec<char>>) -> Seq<Seq<char>> {
    parts.map_values(|p: Vec<char>| p@)
}

/// Add one more part.
fn take_part(parts: &mut Vec<Vec<char>>, part: Vec<char>)
    ensures
        part_texts(final(parts)@) == add_part(part_texts(old(parts)@), part@),
{
    let ghost before = part_texts(parts@);
    if part.len() == 0 || (part.len() == 1 && part[0] == '.') {
        assert(part.len() == 1 ==> part@ =~= seq!['.']);
    } else if part.len() == 2 && part[0] == '.' && part[1] == '.' {
        assert(part@ =~= seq!['.', '.']);
        if parts.len() > 0 {
            let _ = parts.pop();
            assert(part_texts(parts@) =~= before.drop_last());
        }
    } else {
        assert(part@ != seq!['.'] && part@ != seq!['.', '.']);
        let ghost text = part@;
        parts.push(part);
        assert(part_texts(parts@) =~= before.push(text));
    }
}

/// Parts with backslashes between them.
fn join(parts: &Vec<Vec<char>>) -> (out: Vec<char>)
    ensures
        out@ == joined(part_texts(parts@)),
{
    let ghost texts = part_texts(parts@);
    let mut out: Vec<char> = Vec::new();
    let mut i: usize = 0;
    while i < parts.len()
        invariant
            i <= parts@.len(),
            texts == part_texts(parts@),
            out@ == joined(texts.take(i as int)),
        decreases parts@.len() - i,
    {
        if i > 0 {
            out.push('\\');
        }
        push_chars(&mut out, parts[i].as_slice());
        proof {
            assert(texts.take(i + 1).drop_last() =~= texts.take(i as int));
            assert(texts.take(i + 1).last() == parts@[i as int]@);
            assert(out@ =~= joined(texts.take(i + 1)));
        }
        i += 1;
    }
    assert(texts.take(i as int) =~= texts);
    out
}

/// A path without parts that lead nowhere.
fn collapse(rest: &Vec<char>) -> (out: Vec<char>)
    ensures
        out@ == collapsed(rest@),
{
    let ghost all = parts_of(rest@);
    let ghost mut done: Seq<Seq<char>> = Seq::empty();
    let mut parts: Vec<Vec<char>> = Vec::new();
    let mut start: usize = 0;
    let length: usize = rest.len();
    proof {
        assert(rest@.skip(0) =~= rest@);
        assert(done + parts_of(rest@.skip(0)) =~= all);
        assert(part_texts(parts@) =~= Seq::empty());
    }
    loop
        invariant
            start <= length == rest@.len(),
            all == parts_of(rest@),
            all == done + parts_of(rest@.skip(start as int)),
            part_texts(parts@) == kept(all, done.len() as int),
        decreases length - start,
    {
        let ghost tail = rest@.skip(start as int);
        let end: Option<usize> = find_char(rest, start, '\\');
        let stop: usize = match end {
            Some(end) => end,
            None => length,
        };
        let part: Vec<char> = part_of(rest, start, stop);
        proof {
            lemma_first_of_tail(rest@, start as int, start as int);
            assert(part@ =~= tail.take(stop - start));
            assert(all[done.len() as int] == parts_of(tail)[0]);
            assert(parts_of(tail)[0] =~= part@);
        }
        take_part(&mut parts, part);
        match end {
            Some(end) => {
                proof {
                    assert(tail.skip(end - start + 1) =~= rest@.skip(end + 1));
                    let next = done.push(all[done.len() as int]);
                    assert(all =~= next + parts_of(rest@.skip(end + 1)));
                    done = next;
                }
                start = end + 1;
            },
            None => {
                assert(all.len() == done.len() + 1);
                return join(&parts);
            },
        }
    }
}

proof fn lemma_first_of_tail(s: Seq<char>, start: int, i: int)
    requires
        0 <= start <= i <= s.len(),
    ensures
        match first_char(s, i, '\\') {
            Some(k) => i <= k < s.len() && first_char(s.skip(start), i - start, '\\') == Some(
                k - start,
            ),
            None => first_char(s.skip(start), i - start, '\\') is None,
        },
    decreases s.len() - i,
{
    if i < s.len() && s[i] != '\\' {
        lemma_first_of_tail(s, start, i + 1);
    }
}

fn canonicalize_text(path: &Vec<char>) -> (out: Vec<char>)
    requires
        drive_is_plain(path@),
    ensures
        out@ == canonical(path@),
{
    let length: usize = path.len();
    let mut out: Vec<char> = Vec::new();
    if length >= 3 && code(path[0]) < 0x80 && path[1] == ':' {
        out = part_of(path, 0, 3);
        let rest: Vec<char> = part_of(path, 3, length);
        push_chars(&mut out, collapse(&rest).as_slice());
        assert(rest@ =~= path@.skip(3));
        assert(path@.subrange(0, 3) =~= path@.take(3));
    } else if length >= 2 && path[0] == '\\' && path[1] == '\\' {
        out.push('\\');
        out.push('\\');
        assert(out@ =~= seq!['\\', '\\']);
        let rest: Vec<char> = part_of(path, 2, length);
        push_chars(&mut out, collapse(&rest).as_slice());
        assert(rest@ =~= path@.skip(2));
    } else {
        out = collapse(path);
    }
    out
}

/// A path without parts that lead nowhere; what it starts with stays. Where a path names a drive,
/// the character behind the colon has to take one byte.
pub fn canonicalize(path: &str) -> (out: String)
    requires
        drive_is_plain(path@),
    ensures
        out@ == canonical(path@),
{
    string_of(canonicalize_text(&chars_of(path)).as_slice())
}

/// A name behind the directory that it is relative to.
fn combine(path: &Vec<char>, name: &Vec<char>) -> (out: Vec<char>)
    ensures
        out@ == combined(path@, name@),
{
    let mut out: Vec<char> = Vec::new();
    if is_absolute_text(name) {
        push_chars(&mut out, name.as_slice());
        assert(out@ =~= name@);
    } else if name.len() > 0 && name[0] == '\\' {
        if path.len() >= 2 && code(path[0]) < 0x80 && code(path[1]) < 0x80 {
            out.push(path[0]);
            out.push(path[1]);
        } else if path.len() >= 1 && 0x80 <= code(path[0]) && code(path[0]) < 0x800 {
            out.push(path[0]);
        } else {
            out.push('C');
            out.push(':');
        }
        assert(out@ =~= drive_of(path@));
        push_chars(&mut out, name.as_slice());
    } else {
        out = trim_end(path);
        out.push('\\');
        push_chars(&mut out, name.as_slice());
        assert(out@ =~= combined(path@, name@));
    }
    out
}

impl CurrentDirectory {
    /// The directory with a backslash at its end.
    pub fn get(&self) -> (out: String)
        ensures
            out@ == shown(self@),
    {
        let mut chars: Vec<char> = chars_of(self.path.as_str());
        if !(chars.len() > 0 && chars[chars.len() - 1] == '\\') {
            chars.push('\\');
        }
        string_of(chars.as_slice())
    }

    /// Set the directory. Backslashes at its end are dropped.
    pub fn set(&mut self, path: &str)
        ensures
            final(self)@ == without_end(path@),
    {
        self.path = string_of(trim_end(&chars_of(path)).as_slice());
    }

    /// The full path of a name. Where it names a drive, the character behind the colon has to take
    /// one byte.
    pub fn full_path(&self, name: &str) -> (out: String)
        requires
            drive_is_plain(combined(self@, name@)),
        ensures
            out@ == canonical(combined(self@, name@)),
    {
        let path: Vec<char> = combine(&chars_of(self.path.as_str()), &chars_of(name));
        string_of(canonicalize_text(&path).as_slice())
    }
}

impl Default for CurrentDirectory {
    fn default() -> (d: Self)
        ensures
            d@ == Seq::<char>::empty(),
    {
        let d = CurrentDirectory { path: String::new() };
        assert(d@ =~= Seq::empty());
        d
    }
}

/// A path with slashes turned into backslashes.
fn turn_slashes(path: &Vec<char>) -> (out: Vec<char>)
    ensures
        out@ == backslashed(path@),
{
    let mut out: Vec<char> = Vec::new();
    let mut i: usize = 0;
    while i < path.len()
        invariant
            i <= path@.len(),
            out@ == backslashed(path@.take(i as int)),
        decreases path@.len() - i,
    {
        out.push(
            if path[i] == '/' {
                '\\'
            } else {
                path[i]
            },
        );
        i += 1;
        assert(out@ =~= backslashed(path@.take(i as int)));
    }
    assert(path@.take(i as int) =~= path@);
    out
}

/// The full path of a name that is relative to `cwd`. Slashes count as backslashes. Where the path
/// names a drive, the character behind the colon has to take one byte.
pub fn full_path_units(name: &[u16], cwd: &[u16]) -> (out: Vec<u16>)
    requires
        drive_is_plain(resolved(decoded(cwd@), decoded(name@))),
    ensures
        out@ == encoded(canonical(resolved(decoded(cwd@), decoded(name@)))),
{
    let directory: Vec<char> = trim_end(&turn_slashes(&decode(cwd)));
    let path: Vec<char> = combine(&directory, &turn_slashes(&decode(name)));
    let mut out: Vec<u16> = Vec::new();
    push_encoded(&mut out, canonicalize_text(&path).as_slice());
    assert(out@ =~= encoded(canonical(path@)));
    out
}

// ---------------------------------------------------------------------------------------------
// Flags
// ---------------------------------------------------------------------------------------------

/// The flags of parameters whose texts are reached by pointers.
pub fn normalize_flags(flags: u32) -> (r: u32)
    ensures
        r == flags | RTL_USER_PROC_PARAMS_NORMALIZED,
{
    flags | RTL_USER_PROC_PARAMS_NORMALIZED
}

/// The flags of parameters whose texts are reached by offsets.
pub fn denormalize_flags(flags: u32) -> (r: u32)
    ensures
        r == flags & !RTL_USER_PROC_PARAMS_NORMALIZED,
{
    flags & !RTL_USER_PROC_PARAMS_NORMALIZED
}

/// Whether the texts of parameters are reached by pointers.
pub fn is_normalized(flags: u32) -> (yes: bool)
    ensures
        yes == (flags & RTL_USER_PROC_PARAMS_NORMALIZED != 0),
{
    flags & RTL_USER_PROC_PARAMS_NORMALIZED != 0
}

/// Flags are normalized once they were normalized and not once that was undone, and only that flag
/// changes.
pub proof fn normalizing_can_be_undone(flags: u32)
    ensures
        (flags | RTL_USER_PROC_PARAMS_NORMALIZED) & RTL_USER_PROC_PARAMS_NORMALIZED != 0,
        (flags & !RTL_USER_PROC_PARAMS_NORMALIZED) & RTL_USER_PROC_PARAMS_NORMALIZED == 0,
        (flags | RTL_USER_PROC_PARAMS_NORMALIZED) & !RTL_USER_PROC_PARAMS_NORMALIZED == flags
            & !RTL_USER_PROC_PARAMS_NORMALIZED,
{
    assert((flags | 1) & 1 != 0 && (flags & !1u32) & 1 == 0 && (flags | 1) & !1u32 == flags & !1u32)
        by (bit_vector);
}

} // verus!
