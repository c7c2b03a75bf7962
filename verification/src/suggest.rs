//! "Did you mean ...?" suggestions: the edit distance between two words and
//! the choice of the closest candidate.
use vstd::prelude::*;
use crate::text::chars_of;

verus! {

pub open spec fn min3(x: nat, y: nat, z: nat) -> nat {
    if x <= y && x <= z {
        x
    } else if y <= z {
        y
    } else {
        z
    }
}

/// The Levenshtein distance: the least number of single-character
/// insertions, deletions and substitutions that turn `a` into `b`.
pub open spec fn edit_distance(a: Seq<char>, b: Seq<char>) -> nat
    decreases a.len() + b.len(),
{
    if a.len() == 0 {
        b.len()
    } else if b.len() == 0 {
        a.len()
    } else {
        min3(
            edit_distance(a.drop_last(), b) + 1,
            edit_distance(a, b.drop_last()) + 1,
            edit_distance(a.drop_last(), b.drop_last()) + (if a.last() == b.last() {
                0nat
            } else {
                1nat
            }),
        )
    }
}

pub open spec fn max_nat(x: nat, y: nat) -> nat {
    if x >= y {
        x
    } else {
        y
    }
}

/// The distance never exceeds the length of the longer word.
pub proof fn lemma_edit_distance_bound(a: Seq<char>, b: Seq<char>)
    ensures
        edit_distance(a, b) <= max_nat(a.len(), b.len()),
    decreases a.len() + b.len(),
{
    if a.len() > 0 && b.len() > 0 {
        lemma_edit_distance_bound(a.drop_last(), b.drop_last());
    }
}

/// A word is at distance zero from itself and only from itself.
pub proof fn lemma_edit_distance_zero(a: Seq<char>, b: Seq<char>)
    ensures
        (edit_distance(a, b) == 0) <==> (a == b),
    decreases a.len() + b.len(),
{
    if a.len() > 0 && b.len() > 0 {
        lemma_edit_distance_zero(a.drop_last(), b.drop_last());
        if a == b {
            assert(a.drop_last() == b.drop_last());
        }
        if edit_distance(a, b) == 0 {
            assert(a =~= a.drop_last().push(a.last()));
            assert(b =~= b.drop_last().push(b.last()));
        }
    } else if a.len() == 0 && b.len() == 0 {
        assert(a =~= b);
    }
}

/// The Levenshtein distance between two character vectors.
pub fn edit_distance_vec(a: &Vec<char>, b: &Vec<char>) -> (d: usize)
    requires
        a@.len() <= isize::MAX,
        b@.len() <= isize::MAX,
    ensures
        d == edit_distance(a@, b@),
{
    let n = a.len();
    let m = b.len();
    if n == 0 {
        return m;
    }
    if m == 0 {
        return n;
    }
    let mut prev: Vec<usize> = Vec::new();
    let mut j: usize = 0;
    while j <= m
        invariant
            j <= m + 1,
            m == b@.len(),
            m <= isize::MAX,
            prev@.len() == j,
            forall|k: int| 0 <= k < j ==> prev@[k] == k,
        decreases m + 1 - j,
    {
        prev.push(j);
        j += 1;
    }
    assert forall|k: int| 0 <= k <= m implies prev@[k] == edit_distance(
        a@.subrange(0, 0),
        b@.subrange(0, k),
    ) by {}
    let mut curr: Vec<usize> = vec![0usize; m + 1];
    let mut i: usize = 1;
    while i <= n
        invariant
            1 <= i <= n + 1,
            n == a@.len(),
            m == b@.len(),
            0 < n <= isize::MAX,
            0 < m <= isize::MAX,
            prev@.len() == m + 1,
            curr@.len() == m + 1,
            forall|k: int|
                0 <= k <= m ==> #[trigger] prev@[k] == edit_distance(
                    a@.subrange(0, i - 1),
                    b@.subrange(0, k),
                ),
        decreases n + 1 - i,
    {
        let ghost ai = a@.subrange(0, i as int);
        let ghost ap = a@.subrange(0, i - 1);
        assert(ai.drop_last() =~= ap);
        curr.set(0, i);
        assert(b@.subrange(0, 0).len() == 0);
        let mut j: usize = 1;
        while j <= m
            invariant
                1 <= i <= n,
                1 <= j <= m + 1,
                n == a@.len(),
                m == b@.len(),
                0 < n <= isize::MAX,
                0 < m <= isize::MAX,
                prev@.len() == m + 1,
                curr@.len() == m + 1,
                ai == a@.subrange(0, i as int),
                ap == a@.subrange(0, i - 1),
                ai.drop_last() == ap,
                forall|k: int|
                    0 <= k <= m ==> #[trigger] prev@[k] == edit_distance(ap, b@.subrange(0, k)),
                forall|k: int|
                    0 <= k < j ==> #[trigger] curr@[k] == edit_distance(ai, b@.subrange(0, k)),
            decreases m + 1 - j,
        {
            let ghost bj = b@.subrange(0, j as int);
            let ghost bp = b@.subrange(0, j - 1);
            assert(bj.drop_last() =~= bp);
            proof {
                lemma_edit_distance_bound(ap, bj);
                lemma_edit_distance_bound(ai, bp);
                lemma_edit_distance_bound(ap, bp);
            }
            let cost: usize = if a[i - 1] != b[j - 1] {
                1
            } else {
                0
            };
            let x = prev[j] + 1;
            let y = curr[j - 1] + 1;
            let z = prev[j - 1] + cost;
            let mut best = if x <= y {
                x
            } else {
                y
            };
            if z < best {
                best = z;
            }
            assert(ai.last() == a@[i - 1]);
            assert(bj.last() == b@[j - 1]);
            assert(edit_distance(ai, bj) == best);
            curr.set(j, best);
            j += 1;
        }
        let tmp = prev;
        prev = curr;
        curr = tmp;
        i += 1;
    }
    assert(a@.subrange(0, n as int) =~= a@);
    assert(b@.subrange(0, m as int) =~= b@);
    prev[m]
}

/// The Levenshtein distance between two strings, counted in characters.
pub fn levenshtein(a: &str, b: &str) -> (d: usize)
    ensures
        d == edit_distance(a@, b@),
{
    let av = chars_of(a);
    let bv = chars_of(b);
    edit_distance_vec(&av, &bv)
}

/// Whether a candidate at `distance` is worth suggesting for words of
/// `got_len` and `cand_len` characters: not the word itself, and within
/// two edits or a third of the longer word.
pub open spec fn is_close_enough(distance: nat, got_len: nat, cand_len: nat) -> bool {
    distance != 0 && (distance <= 2 || distance * 3 <= max_nat(got_len, cand_len))
}

pub fn close_enough(distance: usize, got_len: usize, cand_len: usize) -> (r: bool)
    ensures
        r == is_close_enough(distance as nat, got_len as nat, cand_len as nat),
{
    if distance == 0 {
        return false;
    }
    let max_len = if got_len >= cand_len {
        got_len
    } else {
        cand_len
    };
    let r = distance <= 2 || distance <= max_len / 3;
    assert((distance * 3 <= max_len) == (distance <= max_len / 3)) by (nonlinear_arith);
    r
}

/// Whether candidate `c` may be suggested for `got`.
pub open spec fn eligible(got: Seq<char>, c: Seq<char>) -> bool {
    c != got && is_close_enough(edit_distance(got, c), got.len(), c.len())
}

/// Candidate `i` is the suggestion: eligible, at least as close as every
/// eligible candidate, and strictly closer than every eligible one before it.
pub open spec fn is_closest(got: Seq<char>, cands: Seq<Seq<char>>, i: int) -> bool {
    &&& 0 <= i < cands.len()
    &&& eligible(got, cands[i])
    &&& forall|j: int|
        0 <= j < cands.len() && eligible(got, #[trigger] cands[j]) ==> edit_distance(
            got,
            cands[i],
        ) <= edit_distance(got, cands[j])
    &&& forall|j: int|
        0 <= j < i && eligible(got, #[trigger] cands[j]) ==> edit_distance(got, cands[j])
            > edit_distance(got, cands[i])
}

/// The index of the suggested candidate, if any.
pub open spec fn closest_index(got: Seq<char>, cands: Seq<Seq<char>>) -> Option<int> {
    if exists|i: int| is_closest(got, cands, i) {
        Some(choose|i: int| is_closest(got, cands, i))
    } else {
        None
    }
}

/// At most one candidate is the suggestion.
pub proof fn lemma_closest_unique(got: Seq<char>, cands: Seq<Seq<char>>, i: int, k: int)
    requires
        is_closest(got, cands, i),
        is_closest(got, cands, k),
    ensures
        i == k,
{
    if i < k {
        assert(eligible(got, cands[i]));
    } else if k < i {
        assert(eligible(got, cands[k]));
    }
}

/// No suggestion exists exactly when no candidate is eligible.
pub proof fn lemma_closest_none(got: Seq<char>, cands: Seq<Seq<char>>)
    ensures
        (closest_index(got, cands) is None) <==> (forall|j: int|
            0 <= j < cands.len() ==> !eligible(got, #[trigger] cands[j])),
{
    if closest_index(got, cands) is None {
        assert forall|j: int| 0 <= j < cands.len() implies !eligible(got, #[trigger] cands[j]) by {
            if eligible(got, cands[j]) {
                // the first candidate of least distance is the suggestion
                let ghost best = choose_min(got, cands, cands.len() as int);
                assert(is_closest(got, cands, best));
            }
        }
    }
}

/// Among the eligible candidates in `cands[..n]` (at least one), the first of
/// least distance.
proof fn choose_min(got: Seq<char>, cands: Seq<Seq<char>>, n: int) -> (b: int)
    requires
        0 < n <= cands.len(),
        exists|j: int| 0 <= j < n && eligible(got, #[trigger] cands[j]),
    ensures
        0 <= b < n,
        eligible(got, cands[b]),
        forall|j: int|
            0 <= j < n && eligible(got, #[trigger] cands[j]) ==> edit_distance(got, cands[b])
                <= edit_distance(got, cands[j]),
        forall|j: int|
            0 <= j < b && eligible(got, #[trigger] cands[j]) ==> edit_distance(got, cands[j])
                > edit_distance(got, cands[b]),
        n == cands.len() ==> is_closest(got, cands, b),
    decreases n,
{
    if exists|j: int| 0 <= j < n - 1 && eligible(got, #[trigger] cands[j]) {
        let p = choose_min(got, cands, n - 1);
        if eligible(got, cands[n - 1]) && edit_distance(got, cands[n - 1]) < edit_distance(
            got,
            cands[p],
        ) {
            n - 1
        } else {
            p
        }
    } else {
        n - 1
    }
}

/// The candidate to suggest for `got`, if any: never `got` itself, always
/// close enough, the closest, and the first among equally close ones.
pub fn closest<'a>(got: &str, candidates: &[&'a str]) -> (r: Option<&'a str>)
    ensures
        r == (match closest_index(got@, candidates@.map_values(|c: &str| c@)) {
            Some(i) => Some(candidates@[i]),
            None => None,
        }),
{
    let ghost cands = candidates@.map_values(|c: &str| c@);
    let g = chars_of(got);
    let mut best: Option<(usize, usize)> = None;
    let mut k: usize = 0;
    while k < candidates.len()
        invariant
            k <= candidates@.len(),
            g@ == got@,
            g@.len() <= isize::MAX,
            cands == candidates@.map_values(|c: &str| c@),
            match best {
                Some((bi, bd)) => {
                    &&& bi < k
                    &&& bd == edit_distance(got@, cands[bi as int])
                    &&& eligible(got@, cands[bi as int])
                    &&& forall|j: int|
                        0 <= j < k && eligible(got@, #[trigger] cands[j]) ==> bd <= edit_distance(
                            got@,
                            cands[j],
                        )
                    &&& forall|j: int|
                        0 <= j < bi && eligible(got@, #[trigger] cands[j]) ==> edit_distance(
                            got@,
                            cands[j],
                        ) > bd
                },
                None => forall|j: int| 0 <= j < k ==> !eligible(got@, #[trigger] cands[j]),
            },
        decreases candidates@.len() - k,
    {
        let c = chars_of(candidates[k]);
        assert(c@ == cands[k as int]);
        if !crate::text::chars_eq(&c, &g) {
            let d = edit_distance_vec(&g, &c);
            if close_enough(d, g.len(), c.len()) {
                match best {
                    None => {
                        best = Some((k, d));
                    },
                    Some((_, bd)) => {
                        if d < bd {
                            best = Some((k, d));
                        }
                    },
                }
            }
        }
        k += 1;
    }
    match best {
        Some((bi, _)) => {
            proof {
                assert(is_closest(got@, cands, bi as int));
                let w = closest_index(got@, cands);
                assert(w is Some);
                lemma_closest_unique(got@, cands, bi as int, w->0);
            }
            Some(candidates[bi])
        },
        None => {
            proof {
                lemma_closest_none(got@, cands);
            }
            None
        },
    }
}

/// The hint text appended to a message when a suggestion exists.
pub open spec fn hinted(base: Seq<char>, got: Seq<char>, cands: Seq<Seq<char>>) -> Seq<char> {
    match closest_index(got, cands) {
        Some(i) => base + " (did you mean `"@ + cands[i] + "`?)"@,
        None => base,
    }
}

/// `base`, followed by a did-you-mean hint when `got` is close to a candidate.
pub fn with_hint(base: &str, got: &str, candidates: &[&str]) -> (r: String)
    ensures
        r@ == hinted(base@, got@, candidates@.map_values(|c: &str| c@)),
{
    let mut r = base.to_owned();
    match closest(got, candidates) {
        Some(hint) => {
            r.append(" (did you mean `");
            r.append(hint);
            r.append("`?)");
        },
        None => {},
    }
    r
}


/// The suggestion for `got` is never `got` itself, and is one of the
/// candidates.
pub proof fn lemma_suggestion_differs(got: Seq<char>, cands: Seq<Seq<char>>)
    ensures
        match closest_index(got, cands) {
            Some(i) => 0 <= i < cands.len() && cands[i] != got,
            None => true,
        },
{
    if exists|i: int| is_closest(got, cands, i) {
        let i = choose|i: int| is_closest(got, cands, i);
        assert(eligible(got, cands[i]));
    }
}

/// A candidate that differs from the word by one or two edits is always
/// close enough: when there is one, a suggestion is made, and it is a
/// candidate other than the word that is at least as close.
pub proof fn lemma_near_candidate_suggested(got: Seq<char>, cands: Seq<Seq<char>>, j: int)
    requires
        0 <= j < cands.len(),
        cands[j] != got,
        edit_distance(got, cands[j]) <= 2,
    ensures
        closest_index(got, cands) matches Some(i) && 0 <= i < cands.len() && cands[i] != got && edit_distance(
            got,
            cands[i],
        ) <= edit_distance(got, cands[j]),
{
    lemma_edit_distance_zero(got, cands[j]);
    assert(eligible(got, cands[j]));
    lemma_closest_none(got, cands);
    let i = choose|i: int| is_closest(got, cands, i);
    assert(is_closest(got, cands, i));
}

/// Changing the last character of a word is one edit, and keeping it none.
pub proof fn lemma_edit_distance_last_change(a: Seq<char>, x: char, y: char)
    ensures
        edit_distance(a.push(x), a.push(y)) == (if x == y {
            0nat
        } else {
            1nat
        }),
{
    lemma_edit_distance_zero(a, a);
    lemma_edit_distance_zero(a.push(x), a.push(y));
    assert(a.push(x).drop_last() =~= a);
    assert(a.push(y).drop_last() =~= a);
    if x != y {
        assert(a.push(x)[a.len() as int] != a.push(y)[a.len() as int]);
    }
}

/// Appending one character to a word is one edit.
pub proof fn lemma_edit_distance_append(a: Seq<char>, y: char)
    ensures
        edit_distance(a, a.push(y)) == 1,
{
    lemma_edit_distance_zero(a, a);
    lemma_edit_distance_zero(a, a.push(y));
    assert(a.push(y).drop_last() =~= a);
    assert(a.push(y).len() != a.len());
    if a.len() == 0 {
        assert(a.push(y).len() == 1);
    }
}

} // verus!
