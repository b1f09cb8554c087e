use vstd::prelude::*;

verus! {

/// Which characters end a field when a grid is read from text.
#[derive(Clone, Copy, Debug, PartialEq, Eq, Structural)]
pub enum Sep {
    /// A comma or a newline: the flat, cell-by-cell reading.
    Field,
    /// A newline: the split into rows.
    Line,
    /// A comma: the split of one row into cells.
    Comma,
}

pub open spec fn is_sep(sep: Sep, c: char) -> bool {
    match sep {
        Sep::Field => c == ',' || c == '\n',
        Sep::Line => c == '\n',
        Sep::Comma => c == ',',
    }
}

/// The position of the first separator in `s`, or `s.len()` if there is none.
pub open spec fn find_sep(sep: Sep, s: Seq<char>) -> int
    decreases s.len(),
{
    if s.len() == 0 {
        0
    } else if is_sep(sep, s[0]) {
        0
    } else {
        1 + find_sep(sep, s.drop_first())
    }
}

/// The fields of `s`: the maximal runs between separators, in order. A
/// string with no separator is one field; every separator ends one field
/// and begins the next, so there is always at least one field.
pub open spec fn fields(sep: Sep, s: Seq<char>) -> Seq<Seq<char>>
    decreases s.len(),
{
    let i = find_sep(sep, s);
    if 0 <= i < s.len() {
        seq![s.take(i)].add(fields(sep, s.skip(i + 1)))
    } else {
        seq![s]
    }
}

/// A position with no separator before it, and a separator (or the end)
/// at it, is where `find_sep` points.
pub proof fn lemma_find_sep_at(sep: Sep, s: Seq<char>, i: int)
    requires
        0 <= i <= s.len(),
        forall|j: int| 0 <= j < i ==> !is_sep(sep, s[j]),
        i == s.len() || is_sep(sep, s[i]),
    ensures
        find_sep(sep, s) == i,
    decreases s.len(),
{
    if s.len() == 0 {
    } else if is_sep(sep, s[0]) {
    } else {
        assert forall|j: int| 0 <= j < i - 1 implies !is_sep(sep, s.drop_first()[j]) by {
            assert(s.drop_first()[j] == s[j + 1]);
        }
        if i < s.len() && i >= 1 {
            assert(s.drop_first()[i - 1] == s[i]);
        }
        lemma_find_sep_at(sep, s.drop_first(), i - 1);
    }
}

pub proof fn lemma_fields_len(sep: Sep, s: Seq<char>)
    ensures
        fields(sep, s).len() >= 1,
    decreases s.len(),
{
}

/// Matches a character against the separator kind.
pub fn sep_matches(sep: Sep, c: char) -> (r: bool)
    ensures
        r == is_sep(sep, c),
{
    match sep {
        Sep::Field => c == ',' || c == '\n',
        Sep::Line => c == '\n',
        Sep::Comma => c == ',',
    }
}

/// The position of the first separator at or after `p`, or the length of
/// the text if there is none.
pub fn scan_sep(sep: Sep, s: &str, p: usize, n: usize) -> (q: usize)
    requires
        n == s@.len(),
        p <= n,
    ensures
        p <= q <= n,
        q - p == find_sep(sep, s@.skip(p as int)),
        forall|j: int| p <= j < q ==> !is_sep(sep, s@[j]),
        q < n ==> is_sep(sep, s@[q as int]),
{
    let mut q = p;
    while q < n && !sep_matches(sep, s.get_char(q))
        invariant
            p <= q <= n,
            n == s@.len(),
            forall|j: int| p <= j < q ==> !is_sep(sep, s@[j]),
        decreases n - q,
    {
        q += 1;
    }
    proof {
        let rest = s@.skip(p as int);
        assert forall|j: int| 0 <= j < q - p implies !is_sep(sep, rest[j]) by {
            assert(rest[j] == s@[p + j]);
        }
        if (q as int) < n {
            assert(rest[q - p] == s@[q as int]);
        }
        lemma_find_sep_at(sep, rest, q - p);
    }
    q
}

} // verus!
