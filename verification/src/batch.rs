//! Row batches of the SQL table and scalar functions: the window of rows that
//! one call emits, where list entries start in a flattened child vector, the
//! distinct paths of a chunk (each is opened once), and the placement of
//! per-point results back at the positions they came from.

use vstd::prelude::*;

verus! {

/// The rows `[start, end)` that the next call of a table function emits:
/// `chunk` rows from `cursor`, cut at `len`; none once `cursor` reached `len`.
pub fn chunk_window(cursor: usize, len: usize, chunk: usize) -> (r: Option<(usize, usize)>)
    ensures
        cursor >= len <==> r is None,
        r matches Some((s, e)) ==> s == cursor && e == (if cursor + chunk < len {
            cursor + chunk
        } else {
            len as int
        }),
{
    if cursor >= len {
        None
    } else if chunk < len - cursor {
        Some((cursor, cursor + chunk))
    } else {
        Some((cursor, len))
    }
}

/// The sum of the lengths.
pub open spec fn total_len(s: Seq<usize>) -> nat
    decreases s.len(),
{
    if s.len() == 0 {
        0
    } else {
        total_len(s.drop_last()) + (s.last() as nat)
    }
}

/// A prefix sums to no more than the whole.
pub proof fn lemma_total_len_prefix(s: Seq<usize>, k: int)
    requires
        0 <= k <= s.len(),
    ensures
        total_len(s.take(k)) <= total_len(s),
    decreases s.len() - k,
{
    if k < s.len() {
        lemma_total_len_prefix(s, k + 1);
        assert(s.take(k + 1).drop_last() =~= s.take(k));
    } else {
        assert(s.take(k) =~= s);
    }
}

/// Where each list entry starts in one flattened child vector, and how long
/// the child is: entry `i` starts where entry `i - 1` ends.
pub fn list_offsets(lens: &Vec<usize>) -> (r: (Vec<usize>, usize))
    requires
        total_len(lens@) <= usize::MAX,
    ensures
        r.0@.len() == lens@.len(),
        forall|i: int| 0 <= i < lens@.len() ==> #[trigger] r.0@[i] == total_len(lens@.take(i)),
        forall|i: int| 0 <= i < lens@.len() ==> #[trigger] r.0@[i] + lens@[i] <= r.1,
        forall|i: int| 0 <= i < lens@.len() - 1 ==> #[trigger] r.0@[i + 1] == r.0@[i] + lens@[i],
        r.1 == total_len(lens@),
{
    let mut offsets: Vec<usize> = Vec::new();
    let mut total: usize = 0;
    let mut i: usize = 0;
    while i < lens.len()
        invariant
            i <= lens@.len(),
            offsets@.len() == i,
            total == total_len(lens@.take(i as int)),
            forall|j: int| 0 <= j < i ==> #[trigger] offsets@[j] == total_len(lens@.take(j)),
            total_len(lens@) <= usize::MAX,
        decreases lens@.len() - i,
    {
        proof {
            lemma_total_len_prefix(lens@, i + 1);
            assert(lens@.take(i + 1).drop_last() =~= lens@.take(i as int));
        }
        offsets.push(total);
        total = total + lens[i];
        i = i + 1;
    }
    proof {
        assert(lens@.take(lens@.len() as int) =~= lens@);
        assert forall|j: int| 0 <= j < lens@.len() implies #[trigger] offsets@[j] + lens@[j]
            <= total by {
            lemma_total_len_prefix(lens@, j + 1);
            assert(lens@.take(j + 1).drop_last() =~= lens@.take(j));
        }
        assert forall|j: int| 0 <= j < lens@.len() - 1 implies #[trigger] offsets@[j + 1] == offsets@[j]
            + lens@[j] by {
            assert(lens@.take(j + 1).drop_last() =~= lens@.take(j));
        }
    }
    (offsets, total)
}

/// The view of an optional string.
pub open spec fn opt_text(o: Option<String>) -> Option<Seq<char>> {
    match o {
        Some(s) => Some(s@),
        None => None,
    }
}

/// The keys that occur, each once, in the order of their first occurrence.
pub open spec fn distinct_keys(s: Seq<Option<Seq<char>>>) -> Seq<Seq<char>>
    decreases s.len(),
{
    if s.len() == 0 {
        Seq::empty()
    } else {
        let d = distinct_keys(s.drop_last());
        match s.last() {
            Some(k) => if d.contains(k) {
                d
            } else {
                d.push(k)
            },
            None => d,
        }
    }
}

/// The distinct keys hold no key twice, and exactly the keys that occur.
pub proof fn lemma_distinct_keys(s: Seq<Option<Seq<char>>>)
    ensures
        distinct_keys(s).no_duplicates(),
        forall|k: Seq<char>| #[trigger] distinct_keys(s).contains(k) <==> s.contains(Some(k)),
    decreases s.len(),
{
    if s.len() > 0 {
        let t = s.drop_last();
        lemma_distinct_keys(t);
        let d = distinct_keys(t);
        assert forall|k: Seq<char>| #[trigger] distinct_keys(s).contains(k) <==> s.contains(Some(k)) by {
            if t.contains(Some(k)) {
                let i = choose|i: int| 0 <= i < t.len() && t[i] == Some(k);
                assert(s[i] == Some(k));
            }
            if s.contains(Some(k)) {
                let i = choose|i: int| 0 <= i < s.len() && s[i] == Some(k);
                if i < s.len() - 1 {
                    assert(t[i] == Some(k));
                }
            }
            match s.last() {
                Some(k2) => {
                    if !d.contains(k2) {
                        if d.push(k2).contains(k) {
                            let j = choose|j: int| 0 <= j < d.push(k2).len() && d.push(k2)[j] == k;
                            if j < d.len() {
                                assert(d[j] == k);
                            }
                        }
                        if d.contains(k) {
                            let j = choose|j: int| 0 <= j < d.len() && d[j] == k;
                            assert(d.push(k2)[j] == k);
                        }
                        assert(d.push(k2)[d.len() as int] == k2);
                    }
                },
                None => {},
            }
        }
    }
}

/// The distinct paths of a chunk in the order they first occur, and for each
/// row the position of its path among them (`None` for a NULL path): every
/// path is opened once per chunk however many rows name it.
pub fn distinct_paths(paths: &Vec<Option<String>>) -> (r: (Vec<String>, Vec<Option<usize>>))
    ensures
        r.0@.map_values(|p: String| p@) == distinct_keys(paths@.map_values(|o: Option<String>| opt_text(o))),
        r.1@.len() == paths@.len(),
        forall|i: int| 0 <= i < paths@.len() ==> (paths@[i] is None <==> #[trigger] r.1@[i] is None),
        forall|i: int|
            0 <= i < paths@.len() && paths@[i] is Some ==> (#[trigger] r.1@[i] matches Some(j) && j
                < r.0@.len() && r.0@[j as int]@ == paths@[i]->Some_0@),
{
    let mut uniq: Vec<String> = Vec::new();
    let mut index: Vec<Option<usize>> = Vec::new();
    let mut i: usize = 0;
    while i < paths.len()
        invariant
            i <= paths@.len(),
            index@.len() == i,
            uniq@.map_values(|p: String| p@) == distinct_keys(
                paths@.take(i as int).map_values(|o: Option<String>| opt_text(o)),
            ),
            forall|m: int| 0 <= m < i ==> (paths@[m] is None <==> #[trigger] index@[m] is None),
            forall|m: int|
                0 <= m < i && paths@[m] is Some ==> (#[trigger] index@[m] matches Some(j) && j
                    < uniq@.len() && uniq@[j as int]@ == paths@[m]->Some_0@),
        decreases paths@.len() - i,
    {
        let ghost before = paths@.take(i as int).map_values(|o: Option<String>| opt_text(o));
        let ghost after = paths@.take(i + 1).map_values(|o: Option<String>| opt_text(o));
        proof {
            assert(after.drop_last() =~= before);
            assert(after.last() == opt_text(paths@[i as int]));
        }
        match &paths[i] {
            None => {
                index.push(None);
            },
            Some(p) => {
                let mut k: usize = 0;
                let mut found: Option<usize> = None;
                while k < uniq.len()
                    invariant_except_break
                        found is None,
                    invariant
                        k <= uniq@.len(),
                        forall|m: int| 0 <= m < k ==> uniq@[m]@ != p@,
                    ensures
                        found matches Some(j) ==> j < uniq@.len() && uniq@[j as int]@ == p@,
                        found is None ==> forall|m: int| 0 <= m < uniq@.len() ==> uniq@[m]@ != p@,
                    decreases uniq@.len() - k,
                {
                    if uniq[k] == *p {
                        found = Some(k);
                        break;
                    }
                    k = k + 1;
                }
                let ghost d = uniq@.map_values(|q: String| q@);
                match found {
                    Some(j) => {
                        proof {
                            assert(d[j as int] == p@);
                            assert(d.contains(p@));
                        }
                        index.push(Some(j));
                    },
                    None => {
                        proof {
                            assert(!d.contains(p@)) by {
                                if d.contains(p@) {
                                    let m = choose|m: int| 0 <= m < d.len() && d[m] == p@;
                                    assert(uniq@[m]@ == p@);
                                }
                            }
                        }
                        let n = uniq.len();
                        index.push(Some(n));
                        uniq.push(p.clone());
                        proof {
                            assert(uniq@.map_values(|q: String| q@) =~= d.push(p@));
                        }
                    },
                }
            },
        }
        i = i + 1;
    }
    proof {
        assert(paths@.take(paths@.len() as int) =~= paths@);
    }
    (uniq, index)
}

/// The positions strictly increase.
pub open spec fn increasing(s: Seq<usize>) -> bool {
    forall|a: int, b: int| 0 <= a < b < s.len() ==> s[a] < s[b]
}

/// The positions of a point list at which both coordinates are given, in
/// order.
pub fn present_positions(x_null: &Vec<bool>, y_null: &Vec<bool>) -> (r: Vec<usize>)
    requires
        x_null@.len() == y_null@.len(),
    ensures
        increasing(r@),
        forall|j: int| 0 <= j < r@.len() ==> #[trigger] r@[j] < x_null@.len() && !x_null@[r@[j] as int]
            && !y_null@[r@[j] as int],
        forall|k: int|
            0 <= k < x_null@.len() && !x_null@[k] && !y_null@[k] ==> #[trigger] r@.contains(
                k as usize,
            ),
{
    let mut out: Vec<usize> = Vec::new();
    let mut k: usize = 0;
    while k < x_null.len()
        invariant
            k <= x_null@.len(),
            x_null@.len() == y_null@.len(),
            increasing(out@),
            forall|j: int| 0 <= j < out@.len() ==> #[trigger] out@[j] < k && !x_null@[out@[j] as int]
                && !y_null@[out@[j] as int],
            forall|m: int| 0 <= m < k && !x_null@[m] && !y_null@[m] ==> #[trigger] out@.contains(
                m as usize,
            ),
        decreases x_null@.len() - k,
    {
        if !x_null[k] && !y_null[k] {
            let ghost before = out@;
            out.push(k);
            proof {
                assert forall|m: int| 0 <= m <= k && !x_null@[m] && !y_null@[m] implies #[trigger] out@.contains(
                    m as usize,
                ) by {
                    if m < k {
                        assert(before.contains(m as usize));
                        let j = choose|j: int| 0 <= j < before.len() && before[j] == m as usize;
                        assert(out@[j] == m as usize);
                    } else {
                        assert(out@[before.len() as int] == k);
                    }
                }
            }
        }
        k = k + 1;
    }
    out
}

/// A list of `len` results: `values[j]` at `positions[j]` (pairing them up
/// to the shorter of the two lists), nothing elsewhere.
pub fn scatter<V: Copy>(len: usize, positions: &Vec<usize>, values: &Vec<Option<V>>) -> (r: Vec<
    Option<V>,
>)
    requires
        forall|j: int| 0 <= j < positions@.len() ==> #[trigger] positions@[j] < len,
        increasing(positions@),
    ensures
        r@.len() == len,
        forall|j: int|
            0 <= j < positions@.len() && j < values@.len() ==> r@[#[trigger] positions@[j] as int]
                == values@[j],
        forall|k: int|
            0 <= k < len && !positions@.take(
                if positions@.len() < values@.len() {
                    positions@.len() as int
                } else {
                    values@.len() as int
                },
            ).contains(k as usize) ==> #[trigger] r@[k] is None,
{
    let mut out: Vec<Option<V>> = Vec::new();
    let mut k: usize = 0;
    while k < len
        invariant
            k <= len,
            out@.len() == k,
            forall|m: int| 0 <= m < k ==> #[trigger] out@[m] is None,
        decreases len - k,
    {
        out.push(None);
        k = k + 1;
    }
    let n: usize = if positions.len() < values.len() {
        positions.len()
    } else {
        values.len()
    };
    let mut j: usize = 0;
    while j < n
        invariant
            j <= n,
            n <= positions@.len(),
            n <= values@.len(),
            n == (if positions@.len() < values@.len() {
                positions@.len() as int
            } else {
                values@.len() as int
            }),
            forall|a: int| 0 <= a < positions@.len() ==> #[trigger] positions@[a] < len,
            increasing(positions@),
            out@.len() == len,
            forall|a: int| 0 <= a < j ==> out@[#[trigger] positions@[a] as int] == values@[a],
            forall|m: int|
                0 <= m < len && !positions@.take(j as int).contains(m as usize) ==> #[trigger] out@[m]
                    is None,
        decreases n - j,
    {
        let p = positions[j];
        out.set(p, values[j]);
        proof {
            assert forall|a: int| 0 <= a <= j implies out@[#[trigger] positions@[a] as int]
                == values@[a] by {
                if a < j {
                    assert(positions@[a] < positions@[j as int]);
                }
            }
            assert forall|m: int|
                0 <= m < len && !positions@.take(j + 1).contains(m as usize) implies #[trigger] out@[m]
                is None by {
                assert(positions@.take(j + 1)[j as int] == p);
                if positions@.take(j as int).contains(m as usize) {
                    let a = choose|a: int|
                        0 <= a < positions@.take(j as int).len() && positions@.take(j as int)[a]
                            == m as usize;
                    assert(positions@.take(j + 1)[a] == m as usize);
                }
            }
        }
        j = j + 1;
    }
    out
}

} // verus!
