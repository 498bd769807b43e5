//! Entry names: an asset's name is its source file's stem, the part of the
//! path after the last `/` and before the last `.` of that remainder.

use vstd::prelude::*;

verus! {

/// The part of `s` after its last `/` (all of `s` when it has none).
pub open spec fn base_of(s: Seq<char>) -> Seq<char>
    decreases s.len(),
{
    if s.len() == 0 {
        s
    } else if s.last() == '/' {
        Seq::empty()
    } else {
        base_of(s.drop_last()).push(s.last())
    }
}

/// The index of the last `.` of `b` that does not stand first, or -1 when
/// there is none: a leading dot marks a hidden file, not an extension.
pub open spec fn last_dot(b: Seq<char>) -> int
    decreases b.len(),
{
    if b.len() <= 1 {
        -1
    } else if b.last() == '.' {
        b.len() - 1
    } else {
        last_dot(b.drop_last())
    }
}

/// `b` without its extension.
pub open spec fn stem_of(b: Seq<char>) -> Seq<char> {
    if last_dot(b) < 0 {
        b
    } else {
        b.subrange(0, last_dot(b))
    }
}

/// The name an asset at path `s` is recorded under.
pub open spec fn name_of(s: Seq<char>) -> Seq<char> {
    stem_of(base_of(s))
}

proof fn lemma_last_dot_range(b: Seq<char>)
    ensures
        last_dot(b) == -1 || (1 <= last_dot(b) < b.len() && b[last_dot(b)] == '.'),
        forall|j: int| last_dot(b) < j < b.len() && j >= 1 ==> b[j] != '.',
    decreases b.len(),
{
    if b.len() <= 1 {
    } else if b.last() == '.' {
    } else {
        lemma_last_dot_range(b.drop_last());
        assert forall|j: int| last_dot(b) < j < b.len() && j >= 1 implies b[j] != '.' by {
            if j < b.len() - 1 {
                assert(b.drop_last()[j] == b[j]);
            }
        }
    }
}

/// When every character of `b` from `lo` on differs from `.`, the last dot
/// lies below `lo`.
proof fn lemma_last_dot_below(b: Seq<char>, lo: int)
    requires
        0 <= lo <= b.len(),
        forall|j: int| lo <= j < b.len() ==> b[j] != '.',
    ensures
        last_dot(b) < lo || last_dot(b) == -1,
    decreases b.len(),
{
    if b.len() <= 1 {
    } else if b.last() == '.' {
        assert(b[b.len() - 1] == '.');
    } else {
        if lo < b.len() {
            lemma_last_dot_below(b.drop_last(), lo);
        } else {
            lemma_last_dot_below(b.drop_last(), b.len() - 1);
        }
    }
}

/// With a `.` at `k` and none after it, `k` is the last dot.
proof fn lemma_last_dot_at(b: Seq<char>, k: int)
    requires
        1 <= k < b.len(),
        b[k] == '.',
        forall|j: int| k < j < b.len() ==> b[j] != '.',
    ensures
        last_dot(b) == k,
    decreases b.len(),
{
    if k == b.len() - 1 {
    } else {
        lemma_last_dot_at(b.drop_last(), k);
    }
}

/// With a `/` at `k` and none after it, the base is what follows `k`.
proof fn lemma_base_of_at(s: Seq<char>, k: int)
    requires
        0 <= k < s.len(),
        s[k] == '/',
        forall|j: int| k < j < s.len() ==> s[j] != '/',
    ensures
        base_of(s) =~= s.subrange(k + 1, s.len() as int),
    decreases s.len(),
{
    if k == s.len() - 1 {
    } else {
        lemma_base_of_at(s.drop_last(), k);
    }
}

/// Without any `/`, the base is the whole path.
proof fn lemma_base_of_none(s: Seq<char>)
    requires
        forall|j: int| 0 <= j < s.len() ==> s[j] != '/',
    ensures
        base_of(s) =~= s,
    decreases s.len(),
{
    if s.len() > 0 {
        lemma_base_of_none(s.drop_last());
    }
}

/// The name an asset at `path` is recorded under: the file stem, computed as
/// [`name_of`] describes.
pub fn format_path(path: &str) -> (r: String)
    ensures
        r@ == name_of(path@),
{
    let n = path.unicode_len();
    // find the position right after the last '/'
    let mut start: usize = 0;
    let mut i: usize = 0;
    while i < n
        invariant
            0 <= start <= i <= n,
            n == path@.len(),
            forall|j: int| start <= j < i ==> path@[j] != '/',
            start > 0 ==> path@[start - 1] == '/',
        decreases n - i,
    {
        if path.get_char(i) == '/' {
            start = i + 1;
        }
        i += 1;
    }
    let base = path.substring_char(start, n);
    proof {
        if start > 0 {
            lemma_base_of_at(path@, start - 1);
        } else {
            lemma_base_of_none(path@);
        }
        assert(base@ =~= base_of(path@));
    }
    // find the last '.' of the base that does not stand first
    let m = base.unicode_len();
    let mut dot: usize = 0;
    let mut has_dot = false;
    let mut k: usize = 1;
    while k < m
        invariant
            1 <= k <= m || m == 0,
            m == base@.len(),
            has_dot ==> 1 <= dot < k <= m && base@[dot as int] == '.',
            forall|j: int| (if has_dot { dot < j } else { 1 <= j }) && j < k ==> base@[j] != '.',
        decreases m - k,
    {
        if base.get_char(k) == '.' {
            dot = k;
            has_dot = true;
        }
        k += 1;
    }
    let stem = if has_dot {
        proof {
            lemma_last_dot_at(base@, dot as int);
        }
        base.substring_char(0, dot)
    } else {
        proof {
            lemma_last_dot_range(base@);
            if m > 0 {
                lemma_last_dot_below(base@, 1);
            }
        }
        base
    };
    proof {
        assert(stem@ =~= stem_of(base_of(path@)));
    }
    stem.to_owned()
}

} // verus!
