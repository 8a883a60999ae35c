//! An edit-operation model for misspellings: derive the sequence of edits
//! that turns one word into another, and count how often each sequence was
//! seen.

use vstd::prelude::*;

verus! {

/// One edit: a character inserted, deleted, replaced, or swapped.
#[derive(Debug, Clone, Copy, PartialEq, Eq, Structural)]
pub enum ErrorType {
    Insertion(char),
    Deletion(char),
    Substitution(char, char),
    Transposition(char, char),
}

/// The edits of one misspelling, in the order the backtrace found them.
#[derive(Debug)]
pub struct ErrorSequence(pub Vec<ErrorType>);

impl Clone for ErrorSequence {
    fn clone(&self) -> (r: Self)
        ensures
            r.0@ == self.0@,
    {
        let r = ErrorSequence(self.0.clone());
        proof {
            assert(r.0@ =~= self.0@);
        }
        r
    }
}

/// Whether two words' characters are the same.
fn chars_equal(a: &str, b: &str) -> (r: bool)
    ensures
        r <==> a@ == b@,
{
    let a_len = a.unicode_len();
    let b_len = b.unicode_len();
    if a_len != b_len {
        return false;
    }
    let mut i: usize = 0;
    while i < a_len
        invariant
            i <= a_len,
            a_len == a@.len(),
            a_len == b@.len(),
            forall|k: int| 0 <= k < i ==> a@[k] == b@[k],
        decreases a_len - i,
    {
        if a.get_char(i) != b.get_char(i) {
            return false;
        }
        i = i + 1;
    }
    proof {
        assert(a@ =~= b@);
    }
    true
}

/// The smaller of two quantities.
pub open spec fn min2(x: int, y: int) -> int {
    if x < y {
        x
    } else {
        y
    }
}

/// The Levenshtein distance between the first `i` characters of `a` and
/// the first `j` characters of `b`: the least number of single-character
/// insertions, deletions and substitutions that turns one into the other.
pub open spec fn edit_distance(a: Seq<char>, b: Seq<char>, i: int, j: int) -> int
    decreases i + j,
{
    if i <= 0 {
        if j <= 0 {
            0
        } else {
            j
        }
    } else if j <= 0 {
        i
    } else {
        let cost: int = if a[i - 1] == b[j - 1] {
            0
        } else {
            1
        };
        min2(
            edit_distance(a, b, i - 1, j - 1) + cost,
            min2(edit_distance(a, b, i - 1, j) + 1, edit_distance(a, b, i, j - 1) + 1),
        )
    }
}

/// The distance never exceeds deleting one word and inserting the other.
proof fn lemma_edit_distance_le(a: Seq<char>, b: Seq<char>, i: int, j: int)
    requires
        i >= 0,
        j >= 0,
    ensures
        0 <= edit_distance(a, b, i, j) <= i + j,
    decreases i + j,
{
    if i > 0 && j > 0 {
        lemma_edit_distance_le(a, b, i - 1, j - 1);
        lemma_edit_distance_le(a, b, i - 1, j);
        lemma_edit_distance_le(a, b, i, j - 1);
    }
}

/// Derives a minimum edit script that turns `a` into `b`, by tracing back
/// through the edit-distance table; `None` exactly when the words are
/// already equal. A script is never empty, never uses a transposition, and
/// its length is the words' Levenshtein distance.
pub fn possible_errors(a: &str, b: &str) -> (r: Option<ErrorSequence>)
    requires
        a@.len() + b@.len() < usize::MAX,
    ensures
        r is Some <==> a@ != b@,
        r is Some ==> r->Some_0.0@.len() >= 1,
        r is Some ==> r->Some_0.0@.len() == edit_distance(
            a@,
            b@,
            a@.len() as int,
            b@.len() as int,
        ),
        r is Some ==> forall|k: int|
            0 <= k < r->Some_0.0@.len() ==> !(#[trigger] r->Some_0.0@[k] is Transposition),
{
    if chars_equal(a, b) {
        return None;
    }
    let a_len = a.unicode_len();
    let b_len = b.unicode_len();

    // The edit-distance table, built row by row; dp[i][j] is the distance
    // between the first i characters of `a` and the first j of `b`.
    let mut dp: Vec<Vec<usize>> = Vec::new();
    let mut i: usize = 0;
    while i <= a_len
        invariant
            i <= a_len + 1,
            a_len == a@.len(),
            b_len == b@.len(),
            a_len + b_len < usize::MAX,
            dp@.len() == i,
            forall|k: int| 0 <= k < i ==> (#[trigger] dp@[k])@.len() == b_len + 1,
            forall|k: int, l: int|
                0 <= k < i && 0 <= l <= b_len ==> (#[trigger] dp@[k]@[l]) <= a_len + b_len,
            forall|k: int, l: int|
                0 <= k < i && 0 <= l <= b_len ==> (#[trigger] dp@[k]@[l]) == edit_distance(
                    a@,
                    b@,
                    k,
                    l,
                ),
        decreases a_len + 1 - i,
    {
        let mut row: Vec<usize> = Vec::new();
        let mut j: usize = 0;
        while j <= b_len
            invariant
                j <= b_len + 1,
                i <= a_len,
                a_len == a@.len(),
                b_len == b@.len(),
                a_len + b_len < usize::MAX,
                dp@.len() == i,
                forall|k: int| 0 <= k < i ==> (#[trigger] dp@[k])@.len() == b_len + 1,
                forall|k: int, l: int|
                    0 <= k < i && 0 <= l <= b_len ==> (#[trigger] dp@[k]@[l]) <= a_len + b_len,
                forall|k: int, l: int|
                    0 <= k < i && 0 <= l <= b_len ==> (#[trigger] dp@[k]@[l]) == edit_distance(
                        a@,
                        b@,
                        k,
                        l,
                    ),
                row@.len() == j,
                forall|l: int| 0 <= l < j ==> (#[trigger] row@[l]) <= a_len + b_len,
                forall|l: int|
                    0 <= l < j ==> (#[trigger] row@[l]) == edit_distance(a@, b@, i as int, l),
            decreases b_len + 1 - j,
        {
            let cell: usize = if i == 0 {
                j
            } else if j == 0 {
                i
            } else {
                let cost: usize = if a.get_char(i - 1) == b.get_char(j - 1) {
                    0
                } else {
                    1
                };
                let diag = dp[i - 1][j - 1] + cost;
                let up = dp[i - 1][j] + 1;
                let left = row[j - 1] + 1;
                let mut best = diag;
                if up < best {
                    best = up;
                }
                if left < best {
                    best = left;
                }
                if best > a_len + b_len {
                    a_len + b_len
                } else {
                    best
                }
            };
            proof {
                lemma_edit_distance_le(a@, b@, i as int, j as int);
                assert(cell == edit_distance(a@, b@, i as int, j as int));
            }
            row.push(cell);
            j = j + 1;
        }
        dp.push(row);
        i = i + 1;
    }

    // Trace back from the corner, recording the edits taken.
    let ghost lev_total = edit_distance(a@, b@, a_len as int, b_len as int);
    let mut errors: Vec<ErrorType> = Vec::new();
    let mut ii: usize = a_len;
    let mut jj: usize = b_len;
    while ii > 0 && jj > 0
        invariant
            ii <= a_len,
            jj <= b_len,
            a_len == a@.len(),
            b_len == b@.len(),
            a_len + b_len < usize::MAX,
            dp@.len() == a_len + 1,
            forall|k: int| 0 <= k <= a_len ==> (#[trigger] dp@[k])@.len() == b_len + 1,
            forall|k: int, l: int|
                0 <= k <= a_len && 0 <= l <= b_len ==> (#[trigger] dp@[k]@[l]) <= a_len + b_len,
            forall|k: int, l: int|
                0 <= k <= a_len && 0 <= l <= b_len ==> (#[trigger] dp@[k]@[l]) == edit_distance(
                    a@,
                    b@,
                    k,
                    l,
                ),
            lev_total == edit_distance(a@, b@, a_len as int, b_len as int),
            errors@.len() + edit_distance(a@, b@, ii as int, jj as int) == lev_total,
            forall|k: int| 0 <= k < errors@.len() ==> !(#[trigger] errors@[k] is Transposition),
            errors@.len() == 0 ==> a@.skip(ii as int) == b@.skip(jj as int),
        decreases ii + jj,
    {
        let cost: usize = if a.get_char(ii - 1) == b.get_char(jj - 1) {
            0
        } else {
            1
        };
        if dp[ii][jj] == dp[ii - 1][jj - 1] + cost {
            if cost == 1 {
                errors.push(ErrorType::Substitution(a.get_char(ii - 1), b.get_char(jj - 1)));
            }
            proof {
                if cost == 0 && errors@.len() == 0 {
                    assert(a@.skip(ii - 1) =~= seq![a@[ii - 1]] + a@.skip(ii as int));
                    assert(b@.skip(jj - 1) =~= seq![b@[jj - 1]] + b@.skip(jj as int));
                }
            }
            ii = ii - 1;
            jj = jj - 1;
        } else if dp[ii][jj] == dp[ii - 1][jj] + 1 {
            errors.push(ErrorType::Deletion(a.get_char(ii - 1)));
            ii = ii - 1;
        } else {
            errors.push(ErrorType::Insertion(b.get_char(jj - 1)));
            jj = jj - 1;
        }
    }
    proof {
        assert(edit_distance(a@, b@, ii as int, jj as int) == ii + jj);
    }
    while ii > 0
        invariant
            ii <= a_len,
            jj <= b_len,
            a_len == a@.len(),
            b_len == b@.len(),
            lev_total == edit_distance(a@, b@, a_len as int, b_len as int),
            errors@.len() + ii + jj == lev_total,
            forall|k: int| 0 <= k < errors@.len() ==> !(#[trigger] errors@[k] is Transposition),
            errors@.len() == 0 ==> a@.skip(ii as int) == b@.skip(jj as int),
        decreases ii,
    {
        errors.push(ErrorType::Deletion(a.get_char(ii - 1)));
        ii = ii - 1;
    }
    while jj > 0
        invariant
            ii <= a_len,
            jj <= b_len,
            a_len == a@.len(),
            b_len == b@.len(),
            lev_total == edit_distance(a@, b@, a_len as int, b_len as int),
            errors@.len() + ii + jj == lev_total,
            forall|k: int| 0 <= k < errors@.len() ==> !(#[trigger] errors@[k] is Transposition),
            errors@.len() == 0 ==> a@.skip(ii as int) == b@.skip(jj as int),
        decreases jj,
    {
        errors.push(ErrorType::Insertion(b.get_char(jj - 1)));
        jj = jj - 1;
    }
    if errors.len() > 0 {
        Some(ErrorSequence(errors))
    } else {
        // No edit was recorded: the trace walked cost-zero diagonals all
        // the way, so the words were equal, which was ruled out above.
        proof {
            assert(ii == 0 && jj == 0);
            assert(a@.skip(0) =~= a@);
            assert(b@.skip(0) =~= b@);
            assert(false);
        }
        None
    }
}

/// Counts, per edit sequence, how many misspelling pairs produced it.
pub struct ErrorModel {
    errors: Vec<(ErrorSequence, u64)>,
    total: u64,
}

impl ErrorModel {
    /// How many pairs the model has counted.
    pub closed spec fn total_spec(self) -> u64 {
        self.total
    }

    /// Every stored count is at least one, and their sum is the total.
    pub closed spec fn wf(self) -> bool {
        sum_counts(self.errors@) == self.total
    }

    /// An empty model.
    pub fn new() -> (r: Self)
        ensures
            r.wf(),
            r.total_spec() == 0,
    {
        ErrorModel { errors: Vec::new(), total: 0 }
    }

    /// The model's count for one edit sequence.
    pub closed spec fn count_spec(self, key: Seq<ErrorType>) -> int {
        count_of(self.errors@, key)
    }

    /// One step of learning: `key`'s count rose by one and every other
    /// sequence's count is untouched.
    pub open spec fn bumped_by_one(pre: ErrorModel, post: ErrorModel, key: Seq<ErrorType>) -> bool {
        forall|k2: Seq<ErrorType>|
            #[trigger] post.count_spec(k2) == pre.count_spec(k2) + (if k2 == key {
                1int
            } else {
                0int
            })
    }

    /// Feeds one misspelling pair: the pair's derived edit sequence gains
    /// one count, every other sequence's count is untouched. Equal words
    /// teach the model nothing.
    pub fn add(&mut self, a: &str, b: &str)
        requires
            old(self).wf(),
            old(self).total_spec() < u64::MAX,
            a@.len() + b@.len() < usize::MAX,
        ensures
            final(self).wf(),
            a@ == b@ ==> *final(self) == *old(self),
            a@ != b@ ==> final(self).total_spec() == old(self).total_spec() + 1 && exists|
                key: Seq<ErrorType>,
            | #[trigger] ErrorModel::bumped_by_one(*old(self), *final(self), key),
    {
        let derived = possible_errors(a, b);
        if let Some(errors) = derived {
            proof {
                assert(a@ != b@);
            }
            let n = self.errors.len();
            let mut i: usize = 0;
            let ghost entries0 = self.errors@;
            while i < n
                invariant
                    i <= n,
                    a@ != b@,
                    n == self.errors@.len(),
                    self.errors@ == entries0,
                    entries0 == old(self).errors@,
                    self.total == old(self).total,
                    self.total < u64::MAX,
                    sum_counts(self.errors@) == self.total,
                decreases n - i,
            {
                if sequences_equal(&self.errors[i].0, &errors) {
                    proof {
                        // The count is part of a sum bounded by the total,
                        // so bumping it cannot overflow.
                        lemma_count_le_sum(entries0, i as int);
                    }
                    let ghost key = self.errors@[i as int].0.0@;
                    let bumped = (self.errors[i].0.clone(), self.errors[i].1 + 1);
                    let ghost bumped_count = bumped.1;
                    self.errors[i] = bumped;
                    let ghost entries1 = self.errors@;
                    proof {
                        lemma_sum_counts_set(entries0, i as int, self.errors@[i as int]);
                        assert(self.errors@[i as int].1 == bumped_count);
                    }
                    self.total = self.total + 1;
                    proof {
                        assert(ErrorModel::bumped_by_one(*old(self), *self, key)) by {
                            assert forall|k2: Seq<ErrorType>| #[trigger] self.count_spec(k2)
                                == old(self).count_spec(k2) + (if k2 == key {
                                1int
                            } else {
                                0int
                            }) by {
                                lemma_count_of_update(entries0, i as int, entries1[i as int], k2);
                                assert(count_of(self.errors@, k2) == count_of(entries1, k2));
                                assert(count_of(old(self).errors@, k2) == count_of(entries0, k2));
                            }
                        }
                    }
                    return;
                }
                i = i + 1;
            }
            let ghost key = errors.0@;
            self.errors.push((errors, 1));
            proof {
                lemma_sum_counts_push(entries0, self.errors@.last());
                assert(self.errors@ =~= entries0.push(self.errors@.last()));
                assert forall|k2: Seq<ErrorType>| true implies #[trigger] count_of(
                    self.errors@,
                    k2,
                ) == count_of(entries0, k2) + (if k2 == key {
                    1int
                } else {
                    0int
                }) by {
                    lemma_count_of_push(entries0, self.errors@.last(), k2);
                }
            }
            self.total = self.total + 1;
            proof {
                assert(self.count_spec(key) == count_of(entries0, key) + 1);
                assert(forall|k2: Seq<ErrorType>|
                    #[trigger] self.count_spec(k2) == old(self).count_spec(k2) + (if k2 == key {
                        1int
                    } else {
                        0int
                    }));
                assert(ErrorModel::bumped_by_one(*old(self), *self, key));
            }
        }
    }

    /// How many pairs the model has counted.
    pub fn total(&self) -> (r: u64)
        ensures
            r == self.total_spec(),
    {
        self.total
    }
}

/// Whether two edit sequences list the same edits.
fn sequences_equal(x: &ErrorSequence, y: &ErrorSequence) -> (r: bool)
    ensures
        r <==> x.0@ == y.0@,
{
    let n = x.0.len();
    if n != y.0.len() {
        return false;
    }
    let mut i: usize = 0;
    while i < n
        invariant
            i <= n,
            n == x.0@.len(),
            n == y.0@.len(),
            forall|k: int| 0 <= k < i ==> x.0@[k] == y.0@[k],
        decreases n - i,
    {
        if x.0[i] != y.0[i] {
            return false;
        }
        i = i + 1;
    }
    proof {
        assert(x.0@ =~= y.0@);
    }
    true
}

/// The sum of the stored counts.
pub closed spec fn sum_counts(entries: Seq<(ErrorSequence, u64)>) -> int
    decreases entries.len(),
{
    if entries.len() == 0 {
        0
    } else {
        sum_counts(entries.drop_last()) + entries.last().1
    }
}

/// The total count stored for an edit sequence, summed over the entries
/// that list it.
pub closed spec fn count_of(entries: Seq<(ErrorSequence, u64)>, key: Seq<ErrorType>) -> int
    decreases entries.len(),
{
    if entries.len() == 0 {
        0
    } else {
        count_of(entries.drop_last(), key) + (if entries.last().0.0@ == key {
            entries.last().1 as int
        } else {
            0int
        })
    }
}

/// Replacing one entry with a like-keyed entry shifts only that key's
/// count, by the counts' difference.
proof fn lemma_count_of_update(
    entries: Seq<(ErrorSequence, u64)>,
    i: int,
    v: (ErrorSequence, u64),
    key: Seq<ErrorType>,
)
    requires
        0 <= i < entries.len(),
        v.0.0@ == entries[i].0.0@,
        v.1 == entries[i].1 + 1,
    ensures
        count_of(entries.update(i, v), key) == count_of(entries, key) + (if key
            == entries[i].0.0@ {
            1int
        } else {
            0int
        }),
    decreases entries.len(),
{
    if i == entries.len() - 1 {
        assert(entries.update(i, v).drop_last() =~= entries.drop_last());
    } else {
        lemma_count_of_update(entries.drop_last(), i, v, key);
        assert(entries.update(i, v).drop_last() =~= entries.drop_last().update(i, v));
    }
}

/// Appending an entry raises only its own key's count, by its count.
proof fn lemma_count_of_push(
    entries: Seq<(ErrorSequence, u64)>,
    v: (ErrorSequence, u64),
    key: Seq<ErrorType>,
)
    ensures
        count_of(entries.push(v), key) == count_of(entries, key) + (if key == v.0.0@ {
            v.1 as int
        } else {
            0int
        }),
{
    assert(entries.push(v).drop_last() =~= entries);
}

/// Every count takes part in the sum, which bounds it.
proof fn lemma_count_le_sum(entries: Seq<(ErrorSequence, u64)>, i: int)
    requires
        0 <= i < entries.len(),
    ensures
        entries[i].1 <= sum_counts(entries),
        sum_counts(entries) >= 0,
    decreases entries.len(),
{
    if entries.len() > 0 {
        if i < entries.len() - 1 {
            lemma_count_le_sum(entries.drop_last(), i);
        } else if entries.len() > 1 {
            lemma_count_le_sum(entries.drop_last(), 0);
        }
    }
}

/// Raising one count raises the sum by the same amount.
proof fn lemma_sum_counts_set(entries: Seq<(ErrorSequence, u64)>, i: int, v: (ErrorSequence, u64))
    requires
        0 <= i < entries.len(),
    ensures
        sum_counts(entries.update(i, v)) == sum_counts(entries) - entries[i].1 + v.1,
    decreases entries.len(),
{
    if i == entries.len() - 1 {
        assert(entries.update(i, v).drop_last() =~= entries.drop_last());
    } else {
        lemma_sum_counts_set(entries.drop_last(), i, v);
        assert(entries.update(i, v).drop_last() =~= entries.drop_last().update(i, v));
    }
}

/// Appending an entry adds its count to the sum.
proof fn lemma_sum_counts_push(entries: Seq<(ErrorSequence, u64)>, v: (ErrorSequence, u64))
    ensures
        sum_counts(entries.push(v)) == sum_counts(entries) + v.1,
{
    assert(entries.push(v).drop_last() =~= entries);
}

} // verus!
