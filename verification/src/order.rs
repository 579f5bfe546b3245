//! The orders by which candidates are ranked: keys by size, paths by
//! alphabet.

use vstd::prelude::*;
use vstd::string::StrSliceExecFns;
use std::cmp::Ordering;

verus! {

/// How key `a` stands to key `b`.
pub fn compare(a: u64, b: u64) -> (o: Ordering)
    ensures
        o == Ordering::Less <==> a < b,
        o == Ordering::Equal <==> a == b,
        o == Ordering::Greater <==> a > b,
{
    if a < b {
        Ordering::Less
    } else if a > b {
        Ordering::Greater
    } else {
        Ordering::Equal
    }
}

/// Tells whether key `a` is larger than key `b`.
pub fn exceeds(a: u64, b: u64) -> (larger: bool)
    ensures
        larger == (a > b),
{
    match compare(a, b) {
        Ordering::Greater => true,
        _ => false,
    }
}

/// `a` comes before `b` in the dictionary: at the first place where the two
/// differ `a` has the smaller character, or `a` ends first.
pub open spec fn path_less(a: Seq<char>, b: Seq<char>) -> bool {
    exists|k: int| #[trigger] differ_at(a, b, k) && (k == a.len() || a[k] < b[k])
}

/// `a` and `b` agree on their first `k` characters, `b` goes on, and `a`
/// either ends there or goes on with another character.
pub open spec fn differ_at(a: Seq<char>, b: Seq<char>, k: int) -> bool {
    &&& 0 <= k <= a.len()
    &&& k < b.len()
    &&& forall|j: int| 0 <= j < k ==> a[j] == b[j]
    &&& k < a.len() ==> a[k] != b[k]
}

/// Tells whether `a` comes before `b` in the dictionary.
pub fn path_before(a: &str, b: &str) -> (before: bool)
    ensures
        before == path_less(a@, b@),
{
    let la: usize = a.unicode_len();
    let lb: usize = b.unicode_len();
    let mut i: usize = 0;
    while i < la && i < lb
        invariant
            la == a@.len(),
            lb == b@.len(),
            i <= la,
            i <= lb,
            forall|j: int| 0 <= j < i ==> a@[j] == b@[j],
        decreases la - i,
    {
        let ca: char = a.get_char(i);
        let cb: char = b.get_char(i);
        if ca != cb {
            proof {
                lemma_first_difference(a@, b@, i as int);
            }
            return ca < cb;
        }
        i += 1;
    }
    proof {
        if i < lb {
            lemma_first_difference(a@, b@, i as int);
        } else {
            assert forall|k: int| !#[trigger] differ_at(a@, b@, k) by {}
        }
    }
    i < lb
}

/// Two strings part at one place only, so the order is decided there.
pub proof fn lemma_first_difference(a: Seq<char>, b: Seq<char>, k: int)
    requires
        differ_at(a, b, k),
    ensures
        path_less(a, b) <==> (k == a.len() || a[k] < b[k]),
{
    assert forall|m: int| #[trigger] differ_at(a, b, m) implies m == k by {
        if m < k {
            assert(a[m] == b[m]);
        } else if k < m {
            assert(a[k] == b[k]);
        }
    }
}

/// What comes before something that comes before a third comes before the
/// third.
pub proof fn lemma_path_less_transitive(a: Seq<char>, b: Seq<char>, c: Seq<char>)
    requires
        path_less(a, b),
        path_less(b, c),
    ensures
        path_less(a, c),
{
    let k1 = choose|k: int| #[trigger] differ_at(a, b, k) && (k == a.len() || a[k] < b[k]);
    let k2 = choose|k: int| #[trigger] differ_at(b, c, k) && (k == b.len() || b[k] < c[k]);
    let k = if k1 < k2 {
        k1
    } else {
        k2
    };
    assert forall|j: int| 0 <= j < k implies a[j] == c[j] by {
        assert(a[j] == b[j]);
        assert(b[j] == c[j]);
    }
    if k1 < k2 {
        assert(b[k1] == c[k1]);
    } else if k2 < k1 {
        assert(a[k2] == b[k2]);
    }
    assert(differ_at(a, c, k));
}

/// Of two strings that agree on their first `k` characters one comes before
/// the other, unless they are equal.
pub proof fn lemma_path_order_from(a: Seq<char>, b: Seq<char>, k: int)
    requires
        0 <= k <= a.len(),
        k <= b.len(),
        forall|j: int| 0 <= j < k ==> a[j] == b[j],
    ensures
        a == b || path_less(a, b) || path_less(b, a),
    decreases a.len() - k,
{
    if k == a.len() && k == b.len() {
        assert(a =~= b);
    } else if k == a.len() {
        assert(differ_at(a, b, k));
    } else if k == b.len() {
        assert(differ_at(b, a, k));
    } else if a[k] != b[k] {
        assert(differ_at(a, b, k));
        assert(differ_at(b, a, k));
    } else {
        lemma_path_order_from(a, b, k + 1);
    }
}

/// Of two different strings one comes before the other.
pub proof fn lemma_path_order_total(a: Seq<char>, b: Seq<char>)
    ensures
        a == b || path_less(a, b) || path_less(b, a),
{
    lemma_path_order_from(a, b, 0);
}

/// No string comes before itself.
pub proof fn lemma_path_less_irreflexive(a: Seq<char>)
    ensures
        !path_less(a, a),
{
}

} // verus!
