//! The type-erased values that flow through the graph, and the
//! operations a task node may perform on them.
//!
//! A runtime value is a tagged variant (`Value`): either a single
//! element or a list of elements.  Every read site checks the tag and
//! yields absence (`None`) on a mismatch rather than a wrong-typed
//! value.  Operations are first-order descriptions (`Op1`, `Op2`)
//! whose meaning is given by spec functions over the mathematical view
//! (`Val`), so every evaluator can be held to the same denotation.

use vstd::prelude::*;
use vstd::multiset::Multiset;

verus! {

/// A single data element: an integer or a key/value pair of integers.
#[derive(Clone, Copy, PartialEq, Eq, Structural, Debug, PartialOrd, Ord)]
pub enum Elem {
    Int(i64),
    Pair(i64, i64),
}

/// A runtime value held by a graph node result: one element or a list.
#[derive(Debug, PartialEq, Eq)]
pub enum Value {
    Atom(Elem),
    List(Vec<Elem>),
}

/// The mathematical view of a `Value`.
#[verifier::ext_equal]
pub enum Val {
    Atom(Elem),
    List(Seq<Elem>),
}

impl View for Value {
    type V = Val;

    open spec fn view(&self) -> Val {
        match self {
            Value::Atom(e) => Val::Atom(*e),
            Value::List(v) => Val::List(v@),
        }
    }
}

/// The view of an optional runtime value.
pub open spec fn opt_view(r: Option<Value>) -> Option<Val> {
    match r {
        Some(v) => Some(v@),
        None => None,
    }
}

/// Key extraction: the first or second integer slot of an element.
/// A plain integer acts as its own key in either slot.
#[derive(Clone, Copy, PartialEq, Eq, Structural, Debug)]
pub enum KeyFn {
    Fst,
    Snd,
}

pub open spec fn key_of(k: KeyFn, e: Elem) -> i64 {
    match (k, e) {
        (KeyFn::Fst, Elem::Int(x)) => x,
        (KeyFn::Fst, Elem::Pair(a, _)) => a,
        (KeyFn::Snd, Elem::Int(x)) => x,
        (KeyFn::Snd, Elem::Pair(_, b)) => b,
    }
}

pub fn key_of_exec(k: KeyFn, e: Elem) -> (r: i64)
    ensures
        r == key_of(k, e),
{
    match (k, e) {
        (KeyFn::Fst, Elem::Int(x)) => x,
        (KeyFn::Fst, Elem::Pair(a, _)) => a,
        (KeyFn::Snd, Elem::Int(x)) => x,
        (KeyFn::Snd, Elem::Pair(_, b)) => b,
    }
}

/// Element-wise transforms available to `map`.
#[derive(Clone, Copy, PartialEq, Eq, Structural, Debug)]
pub enum MapFn {
    /// Add a constant (wrapping) to the value slot: the integer itself,
    /// or the second component of a pair.
    AddConst(i64),
    /// Swap the components of a pair; an integer is unchanged.
    Swap,
}

pub open spec fn map_elem(f: MapFn, e: Elem) -> Elem {
    match (f, e) {
        (MapFn::AddConst(c), Elem::Int(x)) => Elem::Int(
            vstd::wrapping::i64_specs::wrapping_add(x, c),
        ),
        (MapFn::AddConst(c), Elem::Pair(a, b)) => Elem::Pair(
            a,
            vstd::wrapping::i64_specs::wrapping_add(b, c),
        ),
        (MapFn::Swap, Elem::Int(x)) => Elem::Int(x),
        (MapFn::Swap, Elem::Pair(a, b)) => Elem::Pair(b, a),
    }
}

pub fn map_elem_exec(f: MapFn, e: Elem) -> (r: Elem)
    ensures
        r == map_elem(f, e),
{
    match (f, e) {
        (MapFn::AddConst(c), Elem::Int(x)) => Elem::Int(x.wrapping_add(c)),
        (MapFn::AddConst(c), Elem::Pair(a, b)) => Elem::Pair(a, b.wrapping_add(c)),
        (MapFn::Swap, Elem::Int(x)) => Elem::Int(x),
        (MapFn::Swap, Elem::Pair(a, b)) => Elem::Pair(b, a),
    }
}

/// Predicates available to `filter`, applied to an element's key.
#[derive(Clone, Copy, PartialEq, Eq, Structural, Debug)]
pub enum Pred {
    IsEven,
    IsPositive,
}

pub open spec fn pred_holds(p: Pred, e: Elem) -> bool {
    match p {
        Pred::IsEven => key_of(KeyFn::Fst, e) % 2 == 0,
        Pred::IsPositive => key_of(KeyFn::Fst, e) > 0,
    }
}

pub fn pred_holds_exec(p: Pred, e: Elem) -> (r: bool)
    ensures
        r == pred_holds(p, e),
{
    let k = key_of_exec(KeyFn::Fst, e);
    match p {
        Pred::IsEven => k % 2 == 0,
        Pred::IsPositive => k > 0,
    }
}

/// The deterministic hash used for key-based bucketing.  Any function
/// of the key alone serves; this one folds the key into a bounded
/// non-negative range and takes a triangular number of it.
pub open spec fn hash_key(x: i64) -> int {
    let m = x % 0x8000_0000;
    ((m + 1) * (m + 2)) / 2
}

pub fn hash_key_exec(x: i64) -> (r: i64)
    ensures
        0 <= r == hash_key(x),
{
    let m = match x.checked_rem_euclid(0x8000_0000) {
        Some(m) => m,
        None => 0,  // unreachable: the divisor is positive
    };
    assert(0 <= m < 0x8000_0000);
    assert((m + 1) * (m + 2) <= 0x8000_0000i64 * 0x8000_0001i64) by (nonlinear_arith)
        requires
            0 <= m < 0x8000_0000,
    ;
    assert(0 <= (m + 1) * (m + 2)) by (nonlinear_arith)
        requires
            0 <= m,
    ;
    (m + 1) * (m + 2) / 2
}

/// How a bucket id in `[0, n)` is chosen for an element of a source
/// partition during a shuffle.
#[derive(Clone, Copy, PartialEq, Eq, Structural, Debug)]
pub enum Bucket {
    /// Route by the source partition index (pure repartition).
    Index,
    /// Route by the parity of the element's key.
    Parity,
    /// Route by a hash of the extracted key.
    ByKey(KeyFn),
}

pub open spec fn bucket_of(b: Bucket, n: int, src: int, e: Elem) -> int {
    match b {
        Bucket::Index => src % n,
        Bucket::Parity => ((key_of(KeyFn::Fst, e) as int) % 2) % n,
        Bucket::ByKey(k) => hash_key(key_of(k, e)) % n,
    }
}

pub fn bucket_of_exec(b: Bucket, n: usize, src: usize, e: Elem) -> (r: usize)
    requires
        n >= 1,
    ensures
        r == bucket_of(b, n as int, src as int, e),
        r < n,
{
    match b {
        Bucket::Index => src % n,
        Bucket::Parity => {
            let k = key_of_exec(KeyFn::Fst, e);
            let par = match k.checked_rem_euclid(2) {
                Some(p) => p,
                None => 0,  // unreachable: the divisor is positive
            };
            assert(par == k % 2 && 0 <= par < 2);
            (par as usize) % n
        },
        Bucket::ByKey(k) => {
            let h = hash_key_exec(key_of_exec(k, e));
            ((h as u64) % (n as u64)) as usize
        },
    }
}

/// What `map` yields on a list.
pub open spec fn map_list(f: MapFn, s: Seq<Elem>) -> Seq<Elem> {
    s.map_values(|e: Elem| map_elem(f, e))
}

/// What `filter` yields on a list.
pub open spec fn filter_list(p: Pred, s: Seq<Elem>) -> Seq<Elem> {
    s.filter(|e: Elem| pred_holds(p, e))
}

/// What one grid cell of a shuffle yields: the elements of a source
/// partition routed to bucket `dest`, in their original order.
pub open spec fn select_list(b: Bucket, n: int, src: int, dest: int, s: Seq<Elem>) -> Seq<Elem> {
    s.filter(|e: Elem| bucket_of(b, n, src, e) == dest)
}

/// Appending one element to a list extends its filtered image by that
/// element exactly when the predicate holds of it.
pub proof fn lemma_filter_push<A>(s: Seq<A>, pred: spec_fn(A) -> bool, e: A)
    ensures
        s.push(e).filter(pred) == if pred(e) {
            s.filter(pred).push(e)
        } else {
            s.filter(pred)
        },
{
    reveal(Seq::filter);
    assert(s.push(e).drop_last() =~= s);
}

/// An exact copy of a list of elements.
pub fn copy_elems(v: &Vec<Elem>) -> (r: Vec<Elem>)
    ensures
        r@ == v@,
{
    let mut r: Vec<Elem> = Vec::new();
    let mut i: usize = 0;
    while i < v.len()
        invariant
            i <= v.len(),
            r@ == v@.take(i as int),
        decreases v.len() - i,
    {
        r.push(v[i]);
        proof {
            assert(v@.take(i as int).push(v@[i as int]) =~= v@.take(i + 1));
        }
        i += 1;
    }
    proof {
        assert(v@.take(v@.len() as int) =~= v@);
    }
    r
}

impl Clone for Value {
    /// Cloning shares no state: the copy views equal to the original.
    fn clone(&self) -> (r: Self)
        ensures
            r@ == self@,
    {
        match self {
            Value::Atom(e) => Value::Atom(*e),
            Value::List(v) => Value::List(copy_elems(v)),
        }
    }
}

pub fn map_exec(f: MapFn, v: &Vec<Elem>) -> (r: Vec<Elem>)
    ensures
        r@ == map_list(f, v@),
{
    let mut r: Vec<Elem> = Vec::new();
    let mut i: usize = 0;
    while i < v.len()
        invariant
            i <= v.len(),
            r@ == map_list(f, v@.take(i as int)),
        decreases v.len() - i,
    {
        r.push(map_elem_exec(f, v[i]));
        proof {
            assert(v@.take(i as int).push(v@[i as int]) =~= v@.take(i + 1));
            assert(map_list(f, v@.take(i + 1)) =~= map_list(f, v@.take(i as int)).push(
                map_elem(f, v@[i as int]),
            ));
        }
        i += 1;
    }
    proof {
        assert(v@.take(v@.len() as int) =~= v@);
    }
    r
}

pub fn filter_exec(p: Pred, v: &Vec<Elem>) -> (r: Vec<Elem>)
    ensures
        r@ == filter_list(p, v@),
{
    let mut r: Vec<Elem> = Vec::new();
    let mut i: usize = 0;
    while i < v.len()
        invariant
            i <= v.len(),
            r@ == filter_list(p, v@.take(i as int)),
        decreases v.len() - i,
    {
        if pred_holds_exec(p, v[i]) {
            r.push(v[i]);
        }
        proof {
            assert(v@.take(i as int).push(v@[i as int]) =~= v@.take(i + 1));
            lemma_filter_push(v@.take(i as int), |e: Elem| pred_holds(p, e), v@[i as int]);
        }
        i += 1;
    }
    proof {
        assert(v@.take(v@.len() as int) =~= v@);
    }
    r
}

pub fn select_exec(b: Bucket, n: usize, src: usize, dest: usize, v: &Vec<Elem>) -> (r: Vec<Elem>)
    requires
        n >= 1,
    ensures
        r@ == select_list(b, n as int, src as int, dest as int, v@),
{
    let mut r: Vec<Elem> = Vec::new();
    let mut i: usize = 0;
    while i < v.len()
        invariant
            n >= 1,
            i <= v.len(),
            r@ == select_list(b, n as int, src as int, dest as int, v@.take(i as int)),
        decreases v.len() - i,
    {
        if bucket_of_exec(b, n, src, v[i]) == dest {
            r.push(v[i]);
        }
        proof {
            assert(v@.take(i as int).push(v@[i as int]) =~= v@.take(i + 1));
            lemma_filter_push(
                v@.take(i as int),
                |e: Elem| bucket_of(b, n as int, src as int, e) == dest,
                v@[i as int],
            );
        }
        i += 1;
    }
    proof {
        assert(v@.take(v@.len() as int) =~= v@);
    }
    r
}

/// Stable insertion of an element into a list: it lands before the
/// first position whose key is strictly greater.
pub open spec fn insert_sorted(k: KeyFn, e: Elem, s: Seq<Elem>) -> Seq<Elem>
    decreases s.len(),
{
    if s.len() == 0 {
        seq![e]
    } else if key_of(k, e) < key_of(k, s[0]) {
        seq![e] + s
    } else {
        seq![s[0]] + insert_sorted(k, e, s.drop_first())
    }
}

/// What `sort_by` yields on a list: a stable insertion sort by key.
pub open spec fn sort_list(k: KeyFn, s: Seq<Elem>) -> Seq<Elem>
    decreases s.len(),
{
    if s.len() == 0 {
        Seq::<Elem>::empty()
    } else {
        insert_sorted(k, s.last(), sort_list(k, s.drop_last()))
    }
}

/// `insert_sorted` splices the element in at the first position whose
/// key is strictly greater than the element's.
proof fn lemma_insert_sorted_at(k: KeyFn, e: Elem, s: Seq<Elem>, pos: int)
    requires
        0 <= pos <= s.len(),
        forall|l: int| 0 <= l < pos ==> !(key_of(k, e) < key_of(k, s[l])),
        pos < s.len() ==> key_of(k, e) < key_of(k, s[pos]),
    ensures
        insert_sorted(k, e, s) == s.take(pos) + seq![e] + s.skip(pos),
    decreases s.len(),
{
    if s.len() == 0 {
        assert(insert_sorted(k, e, s) =~= s.take(pos) + seq![e] + s.skip(pos));
    } else if pos == 0 {
        assert(insert_sorted(k, e, s) =~= s.take(pos) + seq![e] + s.skip(pos));
    } else {
        let d = s.drop_first();
        assert(forall|l: int| 0 <= l < pos - 1 ==> d[l] == s[l + 1]);
        lemma_insert_sorted_at(k, e, d, pos - 1);
        assert(seq![s[0]] + (d.take(pos - 1) + seq![e] + d.skip(pos - 1)) =~= s.take(pos)
            + seq![e] + s.skip(pos));
    }
}

/// Insertion keeps exactly the old elements plus the new one.
pub proof fn lemma_insert_sorted_multiset(k: KeyFn, e: Elem, s: Seq<Elem>)
    ensures
        insert_sorted(k, e, s).to_multiset() == s.to_multiset().insert(e),
    decreases s.len(),
{
    broadcast use vstd::seq_lib::group_to_multiset_ensures;

    if s.len() == 0 {
        assert(s =~= Seq::<Elem>::empty());
        assert(seq![e] =~= s.push(e));
        assert(insert_sorted(k, e, s).to_multiset() =~= s.to_multiset().insert(e));
    } else if key_of(k, e) < key_of(k, s[0]) {
        vstd::seq_lib::lemma_multiset_commutative(seq![e], s);
        assert(seq![e] =~= Seq::<Elem>::empty().push(e));
        assert(Seq::<Elem>::empty().to_multiset() =~= Multiset::<Elem>::empty());
        assert((seq![e] + s).to_multiset() =~= s.to_multiset().insert(e));
    } else {
        lemma_insert_sorted_multiset(k, e, s.drop_first());
        let rest = insert_sorted(k, e, s.drop_first());
        vstd::seq_lib::lemma_multiset_commutative(seq![s[0]], rest);
        vstd::seq_lib::lemma_multiset_commutative(seq![s[0]], s.drop_first());
        assert(seq![s[0]] + s.drop_first() =~= s);
        assert((seq![s[0]] + rest).to_multiset() =~= s.to_multiset().insert(e));
    }
}

/// Sorting permutes: the multiset of elements is unchanged.
pub proof fn lemma_sort_list_multiset(k: KeyFn, s: Seq<Elem>)
    ensures
        sort_list(k, s).to_multiset() == s.to_multiset(),
    decreases s.len(),
{
    broadcast use vstd::seq_lib::group_to_multiset_ensures;

    if s.len() > 0 {
        lemma_sort_list_multiset(k, s.drop_last());
        lemma_insert_sorted_multiset(k, s.last(), sort_list(k, s.drop_last()));
        assert(s.drop_last().push(s.last()) =~= s);
        assert(s.drop_last().push(s.last()).to_multiset() =~= s.drop_last().to_multiset().insert(
            s.last(),
        ));
    }
}

pub fn insert_sorted_exec(k: KeyFn, e: Elem, out: &mut Vec<Elem>)
    ensures
        final(out)@ == insert_sorted(k, e, old(out)@),
{
    let ke = key_of_exec(k, e);
    let mut pos: usize = 0;
    while pos < out.len() && !(ke < key_of_exec(k, out[pos]))
        invariant
            pos <= out.len(),
            out@ == old(out)@,
            ke == key_of(k, e),
            forall|l: int| 0 <= l < pos ==> !(key_of(k, e) < key_of(k, out@[l])),
        decreases out.len() - pos,
    {
        pos += 1;
    }
    proof {
        lemma_insert_sorted_at(k, e, out@, pos as int);
    }
    out.insert(pos, e);
    proof {
        assert(old(out)@.insert(pos as int, e) =~= old(out)@.take(pos as int) + seq![e] + old(
            out,
        )@.skip(pos as int));
    }
}

pub fn sort_exec(k: KeyFn, v: &Vec<Elem>) -> (r: Vec<Elem>)
    ensures
        r@ == sort_list(k, v@),
{
    let mut r: Vec<Elem> = Vec::new();
    let mut i: usize = 0;
    while i < v.len()
        invariant
            i <= v.len(),
            r@ == sort_list(k, v@.take(i as int)),
        decreases v.len() - i,
    {
        insert_sorted_exec(k, v[i], &mut r);
        proof {
            assert(v@.take(i + 1).drop_last() =~= v@.take(i as int));
            assert(v@.take(i + 1).last() == v@[i as int]);
        }
        i += 1;
    }
    proof {
        assert(v@.take(v@.len() as int) =~= v@);
    }
    r
}

/// How many elements of `s` carry key `kk`.
pub open spec fn count_key(k: KeyFn, s: Seq<Elem>, kk: i64) -> int
    decreases s.len(),
{
    if s.len() == 0 {
        0
    } else {
        count_key(k, s.drop_last(), kk) + if key_of(k, s.last()) == kk {
            1int
        } else {
            0int
        }
    }
}

/// The distinct keys of `s`, in order of first occurrence.
pub open spec fn group_keys(k: KeyFn, s: Seq<Elem>) -> Seq<i64>
    decreases s.len(),
{
    if s.len() == 0 {
        Seq::<i64>::empty()
    } else {
        let rest = group_keys(k, s.drop_last());
        if rest.contains(key_of(k, s.last())) {
            rest
        } else {
            rest.push(key_of(k, s.last()))
        }
    }
}

/// What local pre-aggregation yields: one `(key, count)` pair per
/// distinct key, keys in order of first occurrence.
pub open spec fn group_fold(k: KeyFn, s: Seq<Elem>) -> Seq<Elem> {
    group_keys(k, s).map_values(|kk: i64| Elem::Pair(kk, count_key(k, s, kk) as i64))
}

pub proof fn lemma_count_key_bounds(k: KeyFn, s: Seq<Elem>, kk: i64)
    ensures
        0 <= count_key(k, s, kk) <= s.len(),
    decreases s.len(),
{
    if s.len() > 0 {
        lemma_count_key_bounds(k, s.drop_last(), kk);
    }
}

pub proof fn lemma_count_key_push(k: KeyFn, s: Seq<Elem>, e: Elem, kk: i64)
    ensures
        count_key(k, s.push(e), kk) == count_key(k, s, kk) + if key_of(k, e) == kk {
            1int
        } else {
            0int
        },
{
    assert(s.push(e).drop_last() =~= s);
}

pub proof fn lemma_group_keys_push(k: KeyFn, s: Seq<Elem>, e: Elem)
    ensures
        group_keys(k, s.push(e)) == if group_keys(k, s).contains(key_of(k, e)) {
            group_keys(k, s)
        } else {
            group_keys(k, s).push(key_of(k, e))
        },
{
    assert(s.push(e).drop_last() =~= s);
}

/// The keys of a list are distinct.
pub proof fn lemma_group_keys_distinct(k: KeyFn, s: Seq<Elem>)
    ensures
        forall|i: int, j: int|
            0 <= i < j < group_keys(k, s).len() ==> group_keys(k, s)[i] != group_keys(k, s)[j],
    decreases s.len(),
{
    if s.len() > 0 {
        lemma_group_keys_distinct(k, s.drop_last());
        let rest = group_keys(k, s.drop_last());
        let kl = key_of(k, s.last());
        if !rest.contains(kl) {
            assert(forall|i: int| 0 <= i < rest.len() ==> rest[i] != kl);
            assert(group_keys(k, s) == rest.push(kl));
        }
    }
}

/// A key occurs in a list exactly when its count is positive.
pub proof fn lemma_group_keys_contains(k: KeyFn, s: Seq<Elem>, kk: i64)
    ensures
        group_keys(k, s).contains(kk) <==> count_key(k, s, kk) >= 1,
    decreases s.len(),
{
    lemma_count_key_bounds(k, s, kk);
    if s.len() > 0 {
        lemma_group_keys_contains(k, s.drop_last(), kk);
        lemma_count_key_bounds(k, s.drop_last(), kk);
        let rest = group_keys(k, s.drop_last());
        let full = group_keys(k, s);
        let kl = key_of(k, s.last());
        if rest.contains(kk) {
            let w = choose|w: int| 0 <= w < rest.len() && rest[w] == kk;
            assert(full[w] == kk);
            assert(full.contains(kk));
        }
        if kl == kk {
            if rest.contains(kl) {
                assert(full.contains(kk));
            } else {
                assert(full.last() == kk);
                assert(full.contains(kk));
            }
        }
        if full.contains(kk) && kl != kk {
            let w = choose|w: int| 0 <= w < full.len() && full[w] == kk;
            if !rest.contains(kl) {
                assert(w < rest.len());
            }
            assert(rest[w] == kk);
            assert(rest.contains(kk));
        }
    }
}

pub fn group_fold_exec(k: KeyFn, v: &Vec<Elem>) -> (r: Vec<Elem>)
    requires
        v@.len() <= i64::MAX,
    ensures
        r@ == group_fold(k, v@),
{
    let mut r: Vec<Elem> = Vec::new();
    let mut i: usize = 0;
    while i < v.len()
        invariant
            i <= v.len(),
            v@.len() <= i64::MAX,
            r@ == group_fold(k, v@.take(i as int)),
        decreases v.len() - i,
    {
        let ghost s = v@.take(i as int);
        let ghost keys = group_keys(k, s);
        let e = v[i];
        let kk = key_of_exec(k, e);
        proof {
            assert(s.push(e) =~= v@.take(i + 1));
            lemma_group_keys_push(k, s, e);
            lemma_group_keys_distinct(k, s);
            assert forall|kx: i64|
                count_key(k, s.push(e), kx) == count_key(k, s, kx) + (if key_of(k, e) == kx {
                    1int
                } else {
                    0int
                }) by {
                lemma_count_key_push(k, s, e, kx);
            }
        }
        proof {
            assert forall|l: int| 0 <= l < keys.len() implies r@[l] == Elem::Pair(
                keys[l],
                count_key(k, s, keys[l]) as i64,
            ) by {
                assert(r@[l] == group_fold(k, s)[l]);
            }
        }
        // scan the accumulated pairs for this key
        let mut j: usize = 0;
        let mut found = false;
        let mut at: usize = 0;
        while j < r.len() && !found
            invariant
                j <= r.len(),
                r@ == group_fold(k, s),
                r@.len() == keys.len(),
                kk == key_of(k, e),
                forall|l: int|
                    0 <= l < keys.len() ==> r@[l] == Elem::Pair(
                        keys[l],
                        count_key(k, s, keys[l]) as i64,
                    ),
                !found ==> forall|l: int| 0 <= l < j ==> keys[l] != kk,
                found ==> at < r@.len() && keys[at as int] == kk,
            decreases r.len() - j,
        {
            if key_of_exec(KeyFn::Fst, r[j]) == kk {
                found = true;
                at = j;
            }
            j += 1;
        }
        let ghost s2 = s.push(e);
        let ghost keys2 = group_keys(k, s2);
        if found {
            proof {
                assert(keys.contains(kk)) by {
                    assert(keys[at as int] == kk);
                }
                lemma_count_key_bounds(k, s, kk);
                lemma_group_keys_distinct(k, s);
            }
            let ghost old_r = r@;
            let cur = r[at];
            match cur {
                Elem::Pair(a, b) => {
                    proof {
                        assert(cur == old_r[at as int]);
                        assert(old_r[at as int] == Elem::Pair(
                            keys[at as int],
                            count_key(k, s, keys[at as int]) as i64,
                        ));
                        assert(a == kk && b as int == count_key(k, s, kk));
                    }
                    r[at] = Elem::Pair(kk, b + 1);
                    proof {
                        assert(keys2 == keys);
                        assert(count_key(k, s2, kk) == count_key(k, s, kk) + 1);
                        assert forall|l: int| 0 <= l < keys2.len() implies r@[l] == Elem::Pair(
                            keys2[l],
                            count_key(k, s2, keys2[l]) as i64,
                        ) by {
                            if l == at as int {
                                assert(r@[l] == Elem::Pair(kk, (b + 1) as i64));
                            } else {
                                assert(keys[l] != keys[at as int]);
                                assert(count_key(k, s2, keys[l]) == count_key(k, s, keys[l]));
                                assert(r@[l] == old_r[l]);
                            }
                        }
                        assert(r@ =~= group_fold(k, s2));
                    }
                },
                Elem::Int(_) => {
                    proof {
                        assert(cur == old_r[at as int]);
                        assert(false);
                    }
                },
            }
        } else {
            proof {
                assert(forall|l: int| 0 <= l < keys.len() ==> keys[l] != kk);
                if keys.contains(kk) {
                    let w = choose|w: int| 0 <= w < keys.len() && keys[w] == kk;
                    assert(false);
                }
                lemma_group_keys_contains(k, s, kk);
                lemma_count_key_bounds(k, s, kk);
            }
            let ghost old_r = r@;
            r.push(Elem::Pair(kk, 1));
            proof {
                assert(keys2 == keys.push(kk));
                assert(count_key(k, s, kk) == 0);
                assert(count_key(k, s2, kk) == 1);
                assert forall|l: int| 0 <= l < keys2.len() implies r@[l] == Elem::Pair(
                    keys2[l],
                    count_key(k, s2, keys2[l]) as i64,
                ) by {
                    if l < keys.len() {
                        assert(keys[l] != kk);
                        assert(count_key(k, s2, keys[l]) == count_key(k, s, keys[l]));
                        assert(r@[l] == old_r[l]);
                        assert(old_r[l] == Elem::Pair(keys[l], count_key(k, s, keys[l]) as i64));
                    } else {
                        assert(r@[l] == Elem::Pair(kk, 1i64));
                    }
                }
                assert(r@ =~= group_fold(k, s2));
            }
        }
        i += 1;
    }
    proof {
        assert(v@.take(v@.len() as int) =~= v@);
    }
    r
}

/// Every element of the list is a `(key, value)` pair.
pub open spec fn all_pairs(s: Seq<Elem>) -> bool {
    forall|i: int| 0 <= i < s.len() ==> s[i] is Pair
}

/// The sum of the value slots of the elements carrying key `kk`.
pub open spec fn sum_key(s: Seq<Elem>, kk: i64) -> int
    decreases s.len(),
{
    if s.len() == 0 {
        0
    } else {
        sum_key(s.drop_last(), kk) + if key_of(KeyFn::Fst, s.last()) == kk {
            key_of(KeyFn::Snd, s.last()) as int
        } else {
            0int
        }
    }
}

/// What the global merge yields: one pair per distinct key, its value
/// the sum of all partial values for that key.
pub open spec fn merge_fold(s: Seq<Elem>) -> Seq<Elem> {
    group_keys(KeyFn::Fst, s).map_values(|kk: i64| Elem::Pair(kk, sum_key(s, kk) as i64))
}

/// The global merge is defined when every element is a pair and no
/// per-key sum leaves the representable range.
pub open spec fn merge_ok(s: Seq<Elem>) -> bool {
    &&& all_pairs(s)
    &&& forall|j: int|
        0 <= j < group_keys(KeyFn::Fst, s).len() ==> i64::MIN <= #[trigger] sum_key(
            s,
            group_keys(KeyFn::Fst, s)[j],
        ) <= i64::MAX
}

pub proof fn lemma_sum_key_push(s: Seq<Elem>, e: Elem, kk: i64)
    ensures
        sum_key(s.push(e), kk) == sum_key(s, kk) + if key_of(KeyFn::Fst, e) == kk {
            key_of(KeyFn::Snd, e) as int
        } else {
            0int
        },
{
    assert(s.push(e).drop_last() =~= s);
}

pub proof fn lemma_sum_key_bounds(s: Seq<Elem>, kk: i64)
    ensures
        -(s.len() * 0x8000_0000_0000_0000) <= sum_key(s, kk) <= s.len() * 0x8000_0000_0000_0000,
    decreases s.len(),
{
    if s.len() > 0 {
        lemma_sum_key_bounds(s.drop_last(), kk);
    }
}

/// A key that never occurs contributes an empty sum.
pub proof fn lemma_sum_key_absent(s: Seq<Elem>, kk: i64)
    requires
        !group_keys(KeyFn::Fst, s).contains(kk),
    ensures
        sum_key(s, kk) == 0,
    decreases s.len(),
{
    if s.len() > 0 {
        assert(group_keys(KeyFn::Fst, s.drop_last()).contains(kk) ==> group_keys(
            KeyFn::Fst,
            s,
        ).contains(kk)) by {
            if group_keys(KeyFn::Fst, s.drop_last()).contains(kk) {
                let rest = group_keys(KeyFn::Fst, s.drop_last());
                let w = choose|w: int| 0 <= w < rest.len() && rest[w] == kk;
                assert(group_keys(KeyFn::Fst, s)[w] == kk);
            }
        }
        lemma_sum_key_absent(s.drop_last(), kk);
        assert(group_keys(KeyFn::Fst, s).contains(key_of(KeyFn::Fst, s.last())) || group_keys(
            KeyFn::Fst,
            s,
        ).last() == key_of(KeyFn::Fst, s.last()));
    }
}

pub fn merge_fold_exec(v: &Vec<Elem>) -> (r: Option<Vec<Elem>>)
    ensures
        match r {
            Some(rv) => merge_ok(v@) && rv@ == merge_fold(v@),
            None => !merge_ok(v@),
        },
{
    let ghost bb: int = 0x8000_0000_0000_0000;
    let mut keys: Vec<i64> = Vec::new();
    let mut accs: Vec<i128> = Vec::new();
    let mut i: usize = 0;
    while i < v.len()
        invariant
            bb == 0x8000_0000_0000_0000,
            i <= v.len(),
            keys@ == group_keys(KeyFn::Fst, v@.take(i as int)),
            accs@.len() == keys@.len(),
            all_pairs(v@.take(i as int)),
            forall|l: int|
                0 <= l < keys@.len() ==> accs@[l] as int == sum_key(v@.take(i as int), keys@[l]),
            forall|l: int|
                0 <= l < keys@.len() ==> -(i as int * bb) <= #[trigger] accs@[l] <= i as int * bb,
        decreases v.len() - i,
    {
        let e = v[i];
        let ghost s = v@.take(i as int);
        let ghost s2 = s.push(e);
        proof {
            assert(s2 =~= v@.take(i + 1));
            lemma_group_keys_push(KeyFn::Fst, s, e);
            lemma_group_keys_distinct(KeyFn::Fst, s);
            assert forall|kx: i64|
                sum_key(s2, kx) == sum_key(s, kx) + (if key_of(KeyFn::Fst, e) == kx {
                    key_of(KeyFn::Snd, e) as int
                } else {
                    0int
                }) by {
                lemma_sum_key_push(s, e, kx);
            }
        }
        match e {
            Elem::Int(_) => {
                proof {
                    assert(v@[i as int] is Int);
                    assert(!all_pairs(v@));
                }
                return None;
            },
            Elem::Pair(a, b) => {
                let ghost okeys = keys@;
                let mut j: usize = 0;
                let mut found = false;
                let mut at: usize = 0;
                while j < keys.len() && !found
                    invariant
                        j <= keys.len(),
                        keys@ == okeys,
                        !found ==> forall|l: int| 0 <= l < j ==> okeys[l] != a,
                        found ==> at < okeys.len() && okeys[at as int] == a,
                    decreases keys.len() - j,
                {
                    if keys[j] == a {
                        found = true;
                        at = j;
                    }
                    j += 1;
                }
                if found {
                    proof {
                        assert(okeys.contains(a)) by {
                            assert(okeys[at as int] == a);
                        }
                        assert(group_keys(KeyFn::Fst, s2) == okeys);
                    }
                    let ghost old_accs = accs@;
                    let cur = accs[at];
                    proof {
                        assert(-(i as int * bb) <= cur <= i as int * bb);
                        assert(i < v@.len() <= usize::MAX);
                        assert(usize::MAX as int <= 0xFFFF_FFFF_FFFF_FFFF);
                        assert((i as int + 1) * bb == i as int * bb + bb) by (nonlinear_arith);
                        assert((i as int + 1) * bb <= 0x1_0000_0000_0000_0000 * bb)
                            by (nonlinear_arith)
                            requires
                                i as int + 1 <= 0x1_0000_0000_0000_0000,
                                bb == 0x8000_0000_0000_0000,
                        ;
                        assert(i as int * bb >= 0) by (nonlinear_arith)
                            requires
                                i as int >= 0,
                                bb == 0x8000_0000_0000_0000,
                        ;
                    }
                    accs[at] = cur + b as i128;
                    proof {
                        assert forall|l: int|
                            0 <= l < keys@.len() implies accs@[l] as int == sum_key(
                            s2,
                            keys@[l],
                        ) by {
                            if l != at as int {
                                assert(okeys[l] != okeys[at as int]);
                                assert(accs@[l] == old_accs[l]);
                            }
                        }
                        assert forall|l: int|
                            0 <= l < keys@.len() implies -((i + 1) as int * bb)
                            <= #[trigger] accs@[l] <= (i + 1) as int * bb by {
                            assert((i as int + 1) * bb == i as int * bb + bb) by (nonlinear_arith);
                            if l != at as int {
                                assert(accs@[l] == old_accs[l]);
                            }
                        }
                    }
                } else {
                    proof {
                        assert(forall|l: int| 0 <= l < okeys.len() ==> okeys[l] != a);
                        if okeys.contains(a) {
                            let w = choose|w: int| 0 <= w < okeys.len() && okeys[w] == a;
                            assert(false);
                        }
                        lemma_sum_key_absent(s, a);
                        assert(group_keys(KeyFn::Fst, s2) == okeys.push(a));
                    }
                    keys.push(a);
                    accs.push(b as i128);
                    proof {
                        assert forall|l: int|
                            0 <= l < keys@.len() implies -((i + 1) as int * bb)
                            <= #[trigger] accs@[l] <= (i + 1) as int * bb by {
                            assert((i as int + 1) * bb == i as int * bb + bb) by (nonlinear_arith);
                            assert(i as int * bb >= 0) by (nonlinear_arith)
                                requires
                                    i as int >= 0,
                                    bb == 0x8000_0000_0000_0000,
                            ;
                        }
                    }
                }
            },
        }
        i += 1;
    }
    proof {
        assert(v@.take(v@.len() as int) =~= v@);
    }
    let mut out: Vec<Elem> = Vec::new();
    let mut j: usize = 0;
    while j < keys.len()
        invariant
            j <= keys.len(),
            keys@ == group_keys(KeyFn::Fst, v@),
            accs@.len() == keys@.len(),
            all_pairs(v@),
            forall|l: int| 0 <= l < keys@.len() ==> accs@[l] as int == sum_key(v@, keys@[l]),
            out@.len() == j,
            forall|l: int| 0 <= l < j ==> i64::MIN <= #[trigger] sum_key(v@, keys@[l]) <= i64::MAX,
            forall|l: int|
                0 <= l < j ==> #[trigger] out@[l] == Elem::Pair(
                    keys@[l],
                    sum_key(v@, keys@[l]) as i64,
                ),
        decreases keys.len() - j,
    {
        let a = accs[j];
        if a > i64::MAX as i128 || a < i64::MIN as i128 {
            proof {
                assert(!(i64::MIN <= sum_key(v@, group_keys(KeyFn::Fst, v@)[j as int])
                    <= i64::MAX));
            }
            return None;
        }
        out.push(Elem::Pair(keys[j], a as i64));
        j += 1;
    }
    proof {
        assert forall|l: int|
            0 <= l < group_keys(KeyFn::Fst, v@).len() implies i64::MIN <= #[trigger] sum_key(
            v@,
            group_keys(KeyFn::Fst, v@)[l],
        ) <= i64::MAX by {
            assert(i64::MIN <= sum_key(v@, keys@[l]) <= i64::MAX);
            assert(keys@[l] == group_keys(KeyFn::Fst, v@)[l]);
        }
        assert(merge_ok(v@));
        assert(out@ =~= merge_fold(v@));
    }
    Some(out)
}

/// The operation of a one-parent task node.
#[derive(Clone, Copy, PartialEq, Eq, Structural, Debug)]
pub enum Op1 {
    /// Transform every element of a list.
    MapEach(MapFn),
    /// Keep the elements of a list satisfying a predicate.
    Filter(Pred),
    /// Sort a list by key, stably.
    SortBy(KeyFn),
    /// The length of a list, as a single integer element.
    Length,
    /// Wrap a single element as a one-element list.
    Singleton,
    /// One grid cell of a shuffle: the elements of source partition
    /// `src` that a bucket function routes to bucket `dest` of `n`.
    SelectBucket { dest: usize, n: usize, src: usize, by: Bucket },
    /// Local pre-aggregation: per-key element counts.
    GroupFold(KeyFn),
    /// Global merge: per-key sums of partial values.
    MergeFold,
}

/// The operation of a two-parent task node.
#[derive(Clone, Copy, PartialEq, Eq, Structural, Debug)]
pub enum Op2 {
    /// Add two integer atoms; absence if the sum is unrepresentable.
    Add,
    /// Concatenate two lists, left then right.
    Concat,
}

/// The meaning of a one-parent operation.  `None` is absence: the
/// argument's tag does not match what the operation expects, or the
/// result is unrepresentable.
pub open spec fn apply1(op: Op1, v: Val) -> Option<Val> {
    match v {
        Val::Atom(e) => match op {
            Op1::Singleton => Some(Val::List(seq![e])),
            _ => None,
        },
        Val::List(s) => match op {
            Op1::MapEach(f) => Some(Val::List(map_list(f, s))),
            Op1::Filter(p) => Some(Val::List(filter_list(p, s))),
            Op1::SortBy(k) => Some(Val::List(sort_list(k, s))),
            Op1::Length => if s.len() <= i64::MAX {
                Some(Val::Atom(Elem::Int(s.len() as i64)))
            } else {
                None
            },
            Op1::Singleton => None,
            Op1::SelectBucket { dest, n, src, by } => if n >= 1 && dest < n {
                Some(Val::List(select_list(by, n as int, src as int, dest as int, s)))
            } else {
                None
            },
            Op1::GroupFold(k) => if s.len() <= i64::MAX {
                Some(Val::List(group_fold(k, s)))
            } else {
                None
            },
            Op1::MergeFold => if merge_ok(s) {
                Some(Val::List(merge_fold(s)))
            } else {
                None
            },
        },
    }
}

/// The meaning of a two-parent operation.
pub open spec fn apply2(op: Op2, a: Val, b: Val) -> Option<Val> {
    match (op, a, b) {
        (Op2::Add, Val::Atom(Elem::Int(x)), Val::Atom(Elem::Int(y))) => if i64::MIN <= x + y
            <= i64::MAX {
            Some(Val::Atom(Elem::Int((x + y) as i64)))
        } else {
            None
        },
        (Op2::Concat, Val::List(s), Val::List(t)) => Some(Val::List(s + t)),
        _ => None,
    }
}

/// `apply1` lifted over an absent argument.
pub open spec fn lift1(op: Op1, v: Option<Val>) -> Option<Val> {
    match v {
        Some(a) => apply1(op, a),
        None => None,
    }
}

/// `apply2` lifted over absent arguments.
pub open spec fn lift2(op: Op2, a: Option<Val>, b: Option<Val>) -> Option<Val> {
    match (a, b) {
        (Some(x), Some(y)) => apply2(op, x, y),
        _ => None,
    }
}

/// Evaluate a one-parent operation on a materialized value.
pub fn eval_op1(op: Op1, v: &Value) -> (r: Option<Value>)
    ensures
        opt_view(r) == apply1(op, v@),
{
    match v {
        Value::Atom(e) => match op {
            Op1::Singleton => Some(Value::List(vec![*e])),
            _ => None,
        },
        Value::List(vs) => match op {
            Op1::MapEach(f) => Some(Value::List(map_exec(f, vs))),
            Op1::Filter(p) => Some(Value::List(filter_exec(p, vs))),
            Op1::SortBy(k) => Some(Value::List(sort_exec(k, vs))),
            Op1::Length => if vs.len() as u64 <= i64::MAX as u64 {
                Some(Value::Atom(Elem::Int(vs.len() as i64)))
            } else {
                None
            },
            Op1::Singleton => None,
            Op1::SelectBucket { dest, n, src, by } => if n >= 1 && dest < n {
                Some(Value::List(select_exec(by, n, src, dest, vs)))
            } else {
                None
            },
            Op1::GroupFold(k) => if vs.len() as u64 <= i64::MAX as u64 {
                Some(Value::List(group_fold_exec(k, vs)))
            } else {
                None
            },
            Op1::MergeFold => match merge_fold_exec(vs) {
                Some(out) => Some(Value::List(out)),
                None => None,
            },
        },
    }
}

/// Evaluate a two-parent operation on two materialized values.
pub fn eval_op2(op: Op2, a: &Value, b: &Value) -> (r: Option<Value>)
    ensures
        opt_view(r) == apply2(op, a@, b@),
{
    match (op, a, b) {
        (Op2::Add, Value::Atom(Elem::Int(x)), Value::Atom(Elem::Int(y))) => match x.checked_add(
            *y,
        ) {
            Some(z) => Some(Value::Atom(Elem::Int(z))),
            None => None,
        },
        (Op2::Concat, Value::List(s), Value::List(t)) => {
            let mut r = copy_elems(s);
            let mut i: usize = 0;
            while i < t.len()
                invariant
                    i <= t.len(),
                    r@ == s@ + t@.take(i as int),
                decreases t.len() - i,
            {
                r.push(t[i]);
                proof {
                    assert(s@ + t@.take(i + 1) =~= (s@ + t@.take(i as int)).push(t@[i as int]));
                }
                i += 1;
            }
            proof {
                assert(s@ + t@.take(t@.len() as int) =~= s@ + t@);
            }
            Some(Value::List(r))
        },
        _ => None,
    }
}

} // verus!
