use vstd::prelude::*;

verus! {

/// Strict lexicographic order on byte strings.
pub open spec fn bytes_lt(a: Seq<u8>, b: Seq<u8>) -> bool
    decreases a.len(),
{
    if b.len() == 0 {
        false
    } else if a.len() == 0 {
        true
    } else if a[0] != b[0] {
        a[0] < b[0]
    } else {
        bytes_lt(a.drop_first(), b.drop_first())
    }
}

/// Outcome of comparing two values.
#[derive(Debug, Clone, Copy, PartialEq, Eq, Structural)]
pub enum CompareResult {
    Equal,
    Greater,
    Less,
    NotEqual,
}

/// Three-way lexicographic comparison of byte strings.
pub open spec fn bytes_cmp(a: Seq<u8>, b: Seq<u8>) -> CompareResult {
    if bytes_lt(a, b) {
        CompareResult::Less
    } else if a == b {
        CompareResult::Equal
    } else {
        CompareResult::Greater
    }
}

/// Three-way comparison of integers.
pub open spec fn int_cmp(a: i64, b: i64) -> CompareResult {
    if a < b {
        CompareResult::Less
    } else if a == b {
        CompareResult::Equal
    } else {
        CompareResult::Greater
    }
}

/// The all-keys sentinel: both ends are the single byte zero.
pub open spec fn is_all_keys(start: Seq<u8>, end: Seq<u8>) -> bool {
    start == seq![0u8] && end == seq![0u8]
}

/// Whether `k` lies in the range `[start, end)`; an empty `end` is a point
/// lookup on `start`, and the all-keys sentinel matches every key.
pub open spec fn key_in_range(k: Seq<u8>, start: Seq<u8>, end: Seq<u8>) -> bool {
    if end.len() == 0 {
        k == start
    } else if is_all_keys(start, end) {
        true
    } else {
        !bytes_lt(k, start) && bytes_lt(k, end)
    }
}

pub proof fn lemma_lt_irreflexive(a: Seq<u8>)
    ensures
        !bytes_lt(a, a),
    decreases a.len(),
{
    if a.len() > 0 {
        lemma_lt_irreflexive(a.drop_first());
    }
}

pub proof fn lemma_lt_transitive(a: Seq<u8>, b: Seq<u8>, c: Seq<u8>)
    requires
        bytes_lt(a, b),
        bytes_lt(b, c),
    ensures
        bytes_lt(a, c),
    decreases a.len(),
{
    if a.len() > 0 && b.len() > 0 && c.len() > 0 && a[0] == b[0] && b[0] == c[0] {
        lemma_lt_transitive(a.drop_first(), b.drop_first(), c.drop_first());
    }
}

pub proof fn lemma_lt_total(a: Seq<u8>, b: Seq<u8>)
    requires
        a != b,
    ensures
        bytes_lt(a, b) || bytes_lt(b, a),
    decreases a.len(),
{
    if a.len() > 0 && b.len() > 0 && a[0] == b[0] {
        if a.drop_first() == b.drop_first() {
            assert(a =~= seq![a[0]] + a.drop_first());
            assert(b =~= seq![b[0]] + b.drop_first());
        }
        lemma_lt_total(a.drop_first(), b.drop_first());
    } else if a.len() == 0 && b.len() == 0 {
        assert(a =~= b);
    }
}

/// Skipping a common prefix does not change the order.
proof fn lemma_lt_skip(a: Seq<u8>, b: Seq<u8>, i: int)
    requires
        0 <= i <= a.len(),
        i <= b.len(),
        a.take(i) =~= b.take(i),
    ensures
        bytes_lt(a, b) == bytes_lt(a.skip(i), b.skip(i)),
    decreases i,
{
    if i > 0 {
        assert(a.take(i)[0] == b.take(i)[0]);
        assert(a.drop_first().take(i - 1) =~= b.drop_first().take(i - 1)) by {
            assert forall|j: int| 0 <= j < i - 1 implies #[trigger] a.drop_first().take(i - 1)[j]
                == b.drop_first().take(i - 1)[j] by {
                assert(a.take(i)[j + 1] == b.take(i)[j + 1]);
            }
        }
        lemma_lt_skip(a.drop_first(), b.drop_first(), i - 1);
        assert(a.drop_first().skip(i - 1) =~= a.skip(i));
        assert(b.drop_first().skip(i - 1) =~= b.skip(i));
    } else {
        assert(a.skip(0) =~= a);
        assert(b.skip(0) =~= b);
    }
}

/// Compares two byte strings lexicographically.
pub fn compare_bytes(a: &[u8], b: &[u8]) -> (r: CompareResult)
    ensures
        r == bytes_cmp(a@, b@),
{
    let n: usize = if a.len() < b.len() {
        a.len()
    } else {
        b.len()
    };
    let mut i: usize = 0;
    while i < n && a[i] == b[i]
        invariant
            n <= a@.len(),
            n <= b@.len(),
            n == a@.len() || n == b@.len(),
            i <= n,
            a@.take(i as int) =~= b@.take(i as int),
        decreases n - i,
    {
        assert(a@.take(i + 1) =~= a@.take(i as int).push(a@[i as int]));
        assert(b@.take(i + 1) =~= b@.take(i as int).push(b@[i as int]));
        i = i + 1;
    }
    proof {
        lemma_lt_skip(a@, b@, i as int);
    }
    if i < n {
        assert(a@.skip(i as int)[0] == a@[i as int]);
        assert(b@.skip(i as int)[0] == b@[i as int]);
        if a[i] < b[i] {
            CompareResult::Less
        } else {
            assert(a@[i as int] != b@[i as int]);
            CompareResult::Greater
        }
    } else if a.len() < b.len() {
        assert(a@.skip(i as int).len() == 0);
        CompareResult::Less
    } else if a.len() == b.len() {
        assert(a@ =~= a@.take(i as int));
        assert(b@ =~= b@.take(i as int));
        CompareResult::Equal
    } else {
        assert(b@.skip(i as int).len() == 0);
        assert(a@ != b@);
        CompareResult::Greater
    }
}

/// An owned copy of a byte slice.
pub fn to_bytes(s: &[u8]) -> (r: Vec<u8>)
    ensures
        r@ == s@,
{
    let mut r: Vec<u8> = Vec::new();
    let mut i: usize = 0;
    while i < s.len()
        invariant
            i <= s@.len(),
            r@ == s@.take(i as int),
        decreases s@.len() - i,
    {
        r.push(s[i]);
        i = i + 1;
        assert(r@ =~= s@.take(i as int));
    }
    assert(s@.take(i as int) =~= s@);
    r
}

/// Whether `k` lies in the key range given by `start` and `end`.
pub fn in_range(k: &[u8], start: &[u8], end: &[u8]) -> (r: bool)
    ensures
        r == key_in_range(k@, start@, end@),
{
    proof {
        lemma_lt_irreflexive(k@);
    }
    if end.len() == 0 {
        compare_bytes(k, start) == CompareResult::Equal
    } else if start.len() == 1 && start[0] == 0 && end.len() == 1 && end[0] == 0 {
        assert(start@ =~= seq![0u8]);
        assert(end@ =~= seq![0u8]);
        true
    } else {
        assert(!is_all_keys(start@, end@));
        let lo = compare_bytes(k, start);
        let hi = compare_bytes(k, end);
        lo != CompareResult::Less && hi == CompareResult::Less
    }
}

} // verus!
