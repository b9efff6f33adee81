use vstd::prelude::*;

verus! {

/// Index just after the last occurrence of `c` in `s`, or 0 when `c` does not occur.
pub open spec fn after_last(s: Seq<char>, c: char) -> nat
    decreases s.len(),
{
    if s.len() == 0 {
        0
    } else if s.last() == c {
        s.len()
    } else {
        after_last(s.drop_last(), c)
    }
}

/// A path without its trailing slashes.
pub open spec fn trim_slashes(path: Seq<char>) -> Seq<char>
    decreases path.len(),
{
    if path.len() > 0 && path.last() == '/' {
        trim_slashes(path.drop_last())
    } else {
        path
    }
}

/// The last component of a slash-separated path; trailing slashes are ignored.
pub open spec fn file_name_of(path: Seq<char>) -> Seq<char> {
    let t = trim_slashes(path);
    t.subrange(after_last(t, '/') as int, t.len() as int)
}

/// A file name without its final `.extension`; a name without a dot is kept whole.
pub open spec fn stem_of(name: Seq<char>) -> Seq<char> {
    let k = after_last(name, '.');
    if k == 0 {
        name
    } else {
        name.subrange(0, k - 1)
    }
}

/// A path whose last component is an ordinary file name.
pub open spec fn names_a_file(path: Seq<char>) -> bool {
    let n = file_name_of(path);
    n.len() > 0 && n != seq!['.'] && n != seq!['.', '.']
}

proof fn lemma_after_last_bound(s: Seq<char>, c: char)
    ensures
        after_last(s, c) <= s.len(),
        after_last(s, c) > 0 ==> s[after_last(s, c) - 1] == c,
    decreases s.len(),
{
    if s.len() > 0 && s.last() != c {
        lemma_after_last_bound(s.drop_last(), c);
    }
}

fn find_after_last(s: &str, c: char) -> (r: usize)
    ensures
        r == after_last(s@, c),
{
    let n = s.unicode_len();
    let mut i: usize = n;
    assert(s@.subrange(0, n as int) =~= s@);
    while i > 0
        invariant
            i <= n == s@.len(),
            after_last(s@, c) == after_last(s@.subrange(0, i as int), c),
        decreases i,
    {
        if s.get_char(i - 1) == c {
            assert(s@.subrange(0, i as int).last() == c);
            return i;
        }
        assert(s@.subrange(0, i as int).drop_last() =~= s@.subrange(0, i - 1));
        i = i - 1;
    }
    i
}

/// The name of the executable built from a source file: the file name of
/// `bf_path` with its extension removed (`"bar/baz.bf"` gives `"baz"`).
pub fn executable_name(bf_path: &str) -> (r: String)
    requires
        names_a_file(bf_path@),
    ensures
        r@ == stem_of(file_name_of(bf_path@)),
{
    let mut end = bf_path.unicode_len();
    assert(bf_path@.subrange(0, end as int) =~= bf_path@);
    while end > 0 && bf_path.get_char(end - 1) == '/'
        invariant
            end <= bf_path@.len(),
            trim_slashes(bf_path@) == trim_slashes(bf_path@.subrange(0, end as int)),
        decreases end,
    {
        assert(bf_path@.subrange(0, end as int).drop_last() =~= bf_path@.subrange(0, end - 1));
        end = end - 1;
    }
    let trimmed = bf_path.substring_char(0, end);
    assert(trim_slashes(trimmed@) == trimmed@);
    let n = end;
    let start = find_after_last(trimmed, '/');
    proof {
        lemma_after_last_bound(trimmed@, '/');
    }
    let name = trimmed.substring_char(start, n);
    let k = find_after_last(name, '.');
    proof {
        lemma_after_last_bound(name@, '.');
    }
    if k == 0 {
        name.to_owned()
    } else {
        name.substring_char(0, k - 1).to_owned()
    }
}

} // verus!
