use vstd::prelude::*;

use crate::numeric::{wrapping_dec, wrapping_inc};
use crate::string::{chars_of, has_prefix, str_starts_with};

verus! {

/// `a` and `b` both have length at least `q` and agree on their first `q` characters.
pub open spec fn agree_upto(a: Seq<char>, b: Seq<char>, q: int) -> bool {
    0 <= q && q <= a.len() && q <= b.len() && a.subrange(0, q) == b.subrange(0, q)
}

/// Some line other than line `i` starts with the first `p` characters of line `i`.
pub open spec fn shared_at(lines: Seq<Seq<char>>, i: int, p: int) -> bool {
    exists|j: int| 0 <= j < lines.len() && j != i && #[trigger] agree_upto(lines[i], lines[j], p)
}

/// `p` is the length of the shortest prefix of line `i` that no other line shares,
/// or the length of the whole line when every prefix of it is shared.
pub open spec fn is_unique_prefix_len(lines: Seq<Seq<char>>, i: int, p: int) -> bool {
    &&& 0 <= p <= lines[i].len()
    &&& forall|q: int| 0 <= q < p ==> #[trigger] shared_at(lines, i, q)
    &&& (p == lines[i].len() || !shared_at(lines, i, p))
}

/// One selectable line with its unique prefix length and auto-accept eligibility.
#[derive(Debug, Clone, PartialEq, Eq)]
pub struct Entry {
    pub body: String,
    pub prefix_len: usize,
    pub auto_accept: bool,
}

/// The entry computed for line `i` of `lines`: `prefix_len` is the unique prefix
/// length, and `auto_accept` holds exactly when that prefix is not shared, that is,
/// unless the line is a prefix of another line (a duplicate included).
pub open spec fn entry_for(lines: Seq<Seq<char>>, i: int, e: Entry) -> bool {
    &&& e.body@ == lines[i]
    &&& is_unique_prefix_len(lines, i, e.prefix_len as int)
    &&& e.auto_accept == !shared_at(lines, i, e.prefix_len as int)
}

/// The bodies of a list of entries.
pub open spec fn bodies(es: Seq<Entry>) -> Seq<Seq<char>> {
    es.map_values(|e: Entry| e.body@)
}

/// The texts of a list of lines.
pub open spec fn texts(lines: Seq<String>) -> Seq<Seq<char>> {
    lines.map_values(|s: String| s@)
}

/// Every entry is the one computed for its own body among all bodies.
pub open spec fn entries_valid(es: Seq<Entry>) -> bool {
    forall|i: int| 0 <= i < es.len() ==> #[trigger] entry_for(bodies(es), i, es[i])
}

proof fn lemma_agree_shorter(a: Seq<char>, b: Seq<char>, q: int, r: int)
    requires
        agree_upto(a, b, q),
        0 <= r <= q,
    ensures
        agree_upto(a, b, r),
{
    assert(a.subrange(0, r) == a.subrange(0, q).subrange(0, r));
    assert(b.subrange(0, r) == b.subrange(0, q).subrange(0, r));
}

proof fn lemma_agree_extend(a: Seq<char>, b: Seq<char>, p: int)
    requires
        agree_upto(a, b, p),
        p < a.len(),
        p < b.len(),
        a[p] == b[p],
    ensures
        agree_upto(a, b, p + 1),
{
    assert(a.subrange(0, p + 1) =~= a.subrange(0, p).push(a[p]));
    assert(b.subrange(0, p + 1) =~= b.subrange(0, p).push(b[p]));
}

/// The characters of each line.
pub open spec fn char_lines(cs: Seq<Vec<char>>) -> Seq<Seq<char>> {
    cs.map_values(|v: Vec<char>| v@)
}

/// `len` and `auto` are the prefix length and eligibility that line `m` must get.
pub open spec fn settled(ls: Seq<Seq<char>>, m: int, len: usize, auto: bool) -> bool {
    &&& is_unique_prefix_len(ls, m, len as int)
    &&& auto == !shared_at(ls, m, len as int)
}

/// `group` holds, once each, exactly the lines that agree with its first member on
/// the first `p` characters, and every shorter prefix of each member is shared.
pub open spec fn is_group(ls: Seq<Seq<char>>, group: Seq<usize>, p: int) -> bool {
    &&& ls.len() <= usize::MAX
    &&& group.len() > 0
    &&& group.no_duplicates()
    &&& forall|k: int| 0 <= k < group.len() ==> #[trigger] group[k] < ls.len()
    &&& forall|k: int|
        0 <= k < group.len() ==> agree_upto(ls[group[0] as int], ls[#[trigger] group[k] as int], p)
    &&& forall|j: int|
        0 <= j < ls.len() && #[trigger] agree_upto(ls[group[0] as int], ls[j], p)
            ==> group.contains(j as usize)
    &&& forall|k: int, q: int|
        0 <= k < group.len() && 0 <= q < p ==> #[trigger] shared_at(ls, group[k] as int, q)
}

/// A group of two or more members shares the prefix of length `p` of each of them.
proof fn lemma_group_shared(ls: Seq<Seq<char>>, group: Seq<usize>, p: int, k: int)
    requires
        is_group(ls, group, p),
        group.len() >= 2,
        0 <= k < group.len(),
    ensures
        shared_at(ls, group[k] as int, p),
{
    let o: int = if k == 0 {
        1
    } else {
        0
    };
    assert(group[o] != group[k]);
    assert(agree_upto(ls[group[0] as int], ls[group[o] as int], p));
    assert(agree_upto(ls[group[0] as int], ls[group[k] as int], p));
    assert(agree_upto(ls[group[k] as int], ls[group[o] as int], p));
}

/// The lines of `rest` whose character at `p` is the one of its first line form
/// a group at `p + 1`.
proof fn lemma_bucket_is_group(
    ls: Seq<Seq<char>>,
    group: Seq<usize>,
    rest: Seq<usize>,
    bucket: Seq<usize>,
    p: int,
)
    requires
        is_group(ls, group, p),
        group.len() >= 2,
        rest.len() > 0,
        forall|i: int| 0 <= i < rest.len() ==> group.contains(#[trigger] rest[i]),
        forall|i: int| 0 <= i < rest.len() ==> ls[#[trigger] rest[i] as int].len() > p,
        forall|i: int, k: int|
            0 <= i < rest.len() && 0 <= k < group.len() && ls[group[k] as int].len() > p
                && ls[group[k] as int][p] == ls[#[trigger] rest[i] as int][p] ==> rest.contains(
                #[trigger] group[k],
            ),
        bucket.len() > 0,
        bucket[0] == rest[0],
        bucket.no_duplicates(),
        forall|i: int| #![trigger bucket[i]]
            0 <= i < bucket.len() ==> exists|k2: int|
                0 <= k2 < rest.len() && #[trigger] rest[k2] == bucket[i],
        forall|i: int|
            0 <= i < bucket.len() ==> ls[#[trigger] bucket[i] as int][p] == ls[rest[0] as int][p],
        forall|k2: int|
            0 <= k2 < rest.len() ==> (ls[rest[k2] as int][p] == ls[rest[0] as int][p]
                ==> bucket.contains(#[trigger] rest[k2])),
    ensures
        is_group(ls, bucket, p + 1),
{
    let b0 = bucket[0];
    let g0 = group[0];
    assert forall|i: int| 0 <= i < bucket.len() implies group.contains(#[trigger] bucket[i]) && ls[bucket[i] as int].len() > p by {
        let k2 = choose|k2: int| 0 <= k2 < rest.len() && #[trigger] rest[k2] == bucket[i];
    }
    assert(group.contains(b0));
    let kb = choose|kb: int| 0 <= kb < group.len() && group[kb] == b0;
    assert(agree_upto(ls[g0 as int], ls[b0 as int], p));
    assert forall|k: int| 0 <= k < bucket.len() implies #[trigger] bucket[k] < ls.len() by {
        assert(group.contains(bucket[k]));
        let kk = choose|kk: int| 0 <= kk < group.len() && group[kk] == bucket[k];
    }
    assert forall|k: int| 0 <= k < bucket.len() implies agree_upto(
        ls[bucket[0] as int],
        ls[#[trigger] bucket[k] as int],
        p + 1,
    ) by {
        assert(group.contains(bucket[k]));
        let kk = choose|kk: int| 0 <= kk < group.len() && group[kk] == bucket[k];
        assert(agree_upto(ls[g0 as int], ls[group[kk] as int], p));
        assert(agree_upto(ls[b0 as int], ls[bucket[k] as int], p));
        lemma_agree_extend(ls[b0 as int], ls[bucket[k] as int], p);
    }
    assert forall|j: int| 0 <= j < ls.len() && #[trigger] agree_upto(ls[bucket[0] as int], ls[j], p + 1)
        implies bucket.contains(j as usize) by {
        lemma_agree_shorter(ls[b0 as int], ls[j], p + 1, p);
        assert(agree_upto(ls[g0 as int], ls[j], p));
        assert(group.contains(j as usize));
        let k = choose|k: int| 0 <= k < group.len() && group[k] == j as usize;
        assert(ls[b0 as int].subrange(0, p + 1)[p] == ls[j].subrange(0, p + 1)[p]);
        assert(group[k] as int == j);
        assert(ls[j][p] == ls[b0 as int][p]);
        assert(ls[group[k] as int][p] == ls[rest[0] as int][p]);
        assert(ls[group[k] as int].len() > p);
        assert(rest.contains(group[k]));
        let k3 = choose|k3: int| 0 <= k3 < rest.len() && rest[k3] == group[k];
        assert(bucket.contains(rest[k3]));
    }
    assert forall|k: int, q: int| 0 <= k < bucket.len() && 0 <= q < p + 1 implies #[trigger] shared_at(
        ls,
        bucket[k] as int,
        q,
    ) by {
        assert(group.contains(bucket[k]));
        let kk = choose|kk: int| 0 <= kk < group.len() && group[kk] == bucket[k];
        if q < p {
            assert(shared_at(ls, group[kk] as int, q));
        } else {
            lemma_group_shared(ls, group, p, kk);
        }
    }
}

/// Settles every line of `group`, a group at prefix length `p`: a line alone in its
/// group, or one that ends at `p`, is settled at `p`; the others are split by their
/// character at `p` into the groups at `p + 1`.
fn settle_group(
    cs: &Vec<Vec<char>>,
    p: usize,
    group: Vec<usize>,
    pl: &mut Vec<usize>,
    aa: &mut Vec<bool>,
    max_len: usize,
)
    requires
        is_group(char_lines(cs@), group@, p as int),
        old(pl)@.len() == cs@.len(),
        old(aa)@.len() == cs@.len(),
        p <= max_len,
        forall|j: int| 0 <= j < cs@.len() ==> #[trigger] cs@[j]@.len() <= max_len,
    ensures
        final(pl)@.len() == cs@.len(),
        final(aa)@.len() == cs@.len(),
        forall|k: int|
            0 <= k < group@.len() ==> #[trigger] settled(
                char_lines(cs@),
                group@[k] as int,
                final(pl)@[group@[k] as int],
                final(aa)@[group@[k] as int],
            ),
        forall|j: int|
            0 <= j < cs@.len() && !group@.contains(j as usize) ==> final(pl)@[j] == old(pl)@[j]
                && final(aa)@[j] == old(aa)@[j],
    decreases max_len - p,
{
    let ghost ls = char_lines(cs@);
    let ghost n = cs@.len();
    assert forall|j: int| 0 <= j < n implies #[trigger] ls[j] == cs@[j]@ by {}
    if group.len() == 1 {
        let m = group[0];
        proof {
            assert forall|j: int| 0 <= j < n && j != m implies !#[trigger] agree_upto(
                ls[m as int],
                ls[j],
                p as int,
            ) by {
                if agree_upto(ls[m as int], ls[j], p as int) {
                    assert(group@.contains(j as usize));
                    let i = choose|i: int| 0 <= i < group@.len() && group@[i] == j as usize;
                    assert(i == 0);
                }
            }
            assert forall|q: int| 0 <= q < p implies #[trigger] shared_at(ls, m as int, q) by {
                assert(shared_at(ls, group@[0] as int, q));
            }
        }
        pl.set(m, p);
        aa.set(m, true);
        return;
    }
    // Lines that end at `p` are settled here; the others go on in `rest`.
    let mut rest: Vec<usize> = Vec::new();
    let mut k: usize = 0;
    while k < group.len()
        invariant
            k <= group@.len(),
            ls == char_lines(cs@),
            n == cs@.len(),
            forall|j: int| 0 <= j < n ==> #[trigger] ls[j] == cs@[j]@,
            is_group(ls, group@, p as int),
            group@.len() >= 2,
            pl@.len() == n,
            aa@.len() == n,
            forall|j: int|
                0 <= j < n && !group@.contains(j as usize) ==> pl@[j] == old(pl)@[j] && aa@[j]
                    == old(aa)@[j],
            forall|k2: int|
                0 <= k2 < k && ls[group@[k2] as int].len() == p ==> #[trigger] settled(
                    ls,
                    group@[k2] as int,
                    pl@[group@[k2] as int],
                    aa@[group@[k2] as int],
                ),
            rest@.no_duplicates(),
            forall|i: int| #![trigger rest@[i]]
                0 <= i < rest@.len() ==> exists|k2: int|
                    0 <= k2 < k && #[trigger] group@[k2] == rest@[i],
            forall|i: int| 0 <= i < rest@.len() ==> ls[#[trigger] rest@[i] as int].len() > p,
            forall|k2: int|
                0 <= k2 < k && ls[group@[k2] as int].len() > p ==> rest@.contains(
                    #[trigger] group@[k2],
                ),
        decreases group@.len() - k,
    {
        let m = group[k];
        if cs[m].len() == p {
            proof {
                lemma_group_shared(ls, group@, p as int, k as int);
                assert forall|q: int| 0 <= q < p implies #[trigger] shared_at(ls, m as int, q) by {
                    assert(shared_at(ls, group@[k as int] as int, q));
                }
                assert(settled(ls, m as int, p, false));
            }
            pl.set(m, p);
            aa.set(m, false);
            proof {
                assert forall|i: int| #![trigger rest@[i]] 0 <= i < rest@.len() implies exists|k2: int|
                    0 <= k2 < k + 1 && #[trigger] group@[k2] == rest@[i] by {
                    let k2 = choose|k2: int| 0 <= k2 < k && #[trigger] group@[k2] == rest@[i];
                }
                assert forall|k2: int|
                    0 <= k2 < k + 1 && ls[group@[k2] as int].len() == p implies #[trigger] settled(
                    ls,
                    group@[k2] as int,
                    pl@[group@[k2] as int],
                    aa@[group@[k2] as int],
                ) by {
                    if k2 < k {
                        assert(group@[k2] != group@[k as int]);
                    }
                }
            }
        } else {
            proof {
                if rest@.contains(m) {
                    let i = choose|i: int| 0 <= i < rest@.len() && rest@[i] == m;
                    let k2 = choose|k2: int| 0 <= k2 < k && #[trigger] group@[k2] == rest@[i];
                }
            }
            let ghost old_rest = rest@;
            rest.push(m);
            proof {
                assert forall|i: int| #![trigger rest@[i]] 0 <= i < rest@.len() implies exists|k2: int|
                    0 <= k2 < k + 1 && #[trigger] group@[k2] == rest@[i] by {
                    if i == rest@.len() - 1 {
                        assert(group@[k as int] == rest@[i]);
                    } else {
                        let k2 = choose|k2: int| 0 <= k2 < k && #[trigger] group@[k2] == rest@[i];
                    }
                }
                assert forall|k2: int|
                    0 <= k2 < k + 1 && ls[group@[k2] as int].len() > p implies rest@.contains(
                    #[trigger] group@[k2],
                ) by {
                    if k2 == k {
                        assert(rest@[rest@.len() - 1] == m);
                    } else {
                        assert(old_rest.contains(group@[k2]));
                        let i = choose|i: int| 0 <= i < old_rest.len() && old_rest[i] == group@[k2];
                        assert(rest@[i] == group@[k2]);
                    }
                }
            }
        }
        k = k + 1;
    }
    // Each round settles the lines whose character at `p` is that of the first
    // remaining line.
    while rest.len() > 0
        invariant
            ls == char_lines(cs@),
            n == cs@.len(),
            forall|j: int| 0 <= j < n ==> #[trigger] ls[j] == cs@[j]@,
            forall|j: int| 0 <= j < cs@.len() ==> #[trigger] cs@[j]@.len() <= max_len,
            is_group(ls, group@, p as int),
            group@.len() >= 2,
            p <= max_len,
            pl@.len() == n,
            aa@.len() == n,
            forall|j: int|
                0 <= j < n && !group@.contains(j as usize) ==> pl@[j] == old(pl)@[j] && aa@[j]
                    == old(aa)@[j],
            rest@.no_duplicates(),
            forall|i: int| 0 <= i < rest@.len() ==> group@.contains(#[trigger] rest@[i]),
            forall|i: int| 0 <= i < rest@.len() ==> ls[#[trigger] rest@[i] as int].len() > p,
            forall|i: int, k: int|
                0 <= i < rest@.len() && 0 <= k < group@.len() && ls[group@[k] as int].len() > p
                    && ls[group@[k] as int][p as int] == ls[#[trigger] rest@[i] as int][p as int]
                    ==> rest@.contains(#[trigger] group@[k]),
            forall|k: int|
                0 <= k < group@.len() && !rest@.contains(group@[k]) ==> #[trigger] settled(
                    ls,
                    group@[k] as int,
                    pl@[group@[k] as int],
                    aa@[group@[k] as int],
                ),
        decreases rest@.len(),
    {
        let first = rest[0];
        let c = cs[first][p];
        let mut bucket: Vec<usize> = Vec::new();
        let mut others: Vec<usize> = Vec::new();
        for k in 0..rest.len()
            invariant
                ls == char_lines(cs@),
                forall|j: int| 0 <= j < n ==> #[trigger] ls[j] == cs@[j]@,
                n == cs@.len(),
                rest@.len() > 0,
                first == rest@[0],
                c == ls[first as int][p as int],
                rest@.no_duplicates(),
                forall|i: int| 0 <= i < rest@.len() ==> group@.contains(#[trigger] rest@[i]),
                forall|i: int| 0 <= i < rest@.len() ==> ls[#[trigger] rest@[i] as int].len() > p,
                is_group(ls, group@, p as int),
                bucket@.len() + others@.len() == k,
                k > 0 ==> bucket@.len() > 0 && bucket@[0] == first,
                bucket@.no_duplicates(),
                others@.no_duplicates(),
                forall|i: int| #![trigger bucket@[i]]
                    0 <= i < bucket@.len() ==> exists|k2: int|
                        0 <= k2 < k && #[trigger] rest@[k2] == bucket@[i],
                forall|i: int| #![trigger others@[i]]
                    0 <= i < others@.len() ==> exists|k2: int|
                        0 <= k2 < k && #[trigger] rest@[k2] == others@[i],
                forall|i: int|
                    0 <= i < bucket@.len() ==> ls[#[trigger] bucket@[i] as int][p as int] == c,
                forall|i: int|
                    0 <= i < others@.len() ==> ls[#[trigger] others@[i] as int][p as int] != c,
                forall|k2: int|
                    0 <= k2 < k ==> (ls[rest@[k2] as int][p as int] == c ==> bucket@.contains(
                        #[trigger] rest@[k2],
                    )) && (ls[rest@[k2] as int][p as int] != c ==> others@.contains(rest@[k2])),
        {
            let m = rest[k];
            proof {
                assert(ls[m as int].len() > p);
                if bucket@.contains(m) {
                    let i = choose|i: int| 0 <= i < bucket@.len() && bucket@[i] == m;
                    let k2 = choose|k2: int| 0 <= k2 < k && #[trigger] rest@[k2] == bucket@[i];
                }
                if others@.contains(m) {
                    let i = choose|i: int| 0 <= i < others@.len() && others@[i] == m;
                    let k2 = choose|k2: int| 0 <= k2 < k && #[trigger] rest@[k2] == others@[i];
                }
            }
            let ghost old_bucket = bucket@;
            let ghost old_others = others@;
            if cs[m][p] == c {
                bucket.push(m);
            } else {
                others.push(m);
            }
            proof {
                assert forall|i: int| #![trigger bucket@[i]] 0 <= i < bucket@.len() implies exists|k2: int|
                    0 <= k2 < k + 1 && #[trigger] rest@[k2] == bucket@[i] by {
                    if bucket@[i] == m {
                        assert(rest@[k as int] == bucket@[i]);
                    } else {
                        let k2 = choose|k2: int| 0 <= k2 < k && #[trigger] rest@[k2] == bucket@[i];
                    }
                }
                assert forall|i: int| #![trigger others@[i]] 0 <= i < others@.len() implies exists|k2: int|
                    0 <= k2 < k + 1 && #[trigger] rest@[k2] == others@[i] by {
                    if others@[i] == m {
                        assert(rest@[k as int] == others@[i]);
                    } else {
                        let k2 = choose|k2: int| 0 <= k2 < k && #[trigger] rest@[k2] == others@[i];
                    }
                }
                assert forall|k2: int| 0 <= k2 < k + 1 implies (ls[rest@[k2] as int][p as int] == c
                    ==> bucket@.contains(#[trigger] rest@[k2])) && (ls[rest@[k2] as int][p as int]
                    != c ==> others@.contains(rest@[k2])) by {
                    if k2 == k {
                        if ls[m as int][p as int] == c {
                            assert(bucket@[bucket@.len() - 1] == m);
                        } else {
                            assert(others@[others@.len() - 1] == m);
                        }
                    } else if ls[rest@[k2] as int][p as int] == c {
                        assert(old_bucket.contains(rest@[k2]));
                        let i = choose|i: int| 0 <= i < old_bucket.len() && old_bucket[i] == rest@[k2];
                        assert(bucket@[i] == rest@[k2]);
                    } else {
                        assert(old_others.contains(rest@[k2]));
                        let i = choose|i: int| 0 <= i < old_others.len() && old_others[i] == rest@[k2];
                        assert(others@[i] == rest@[k2]);
                    }
                }
            }
        }
        proof {
            lemma_bucket_is_group(ls, group@, rest@, bucket@, p as int);
            assert(cs@[first as int]@.len() <= max_len);
        }
        let ghost bucket_v = bucket@;
        let ghost pl_before = pl@;
        let ghost aa_before = aa@;
        settle_group(cs, p + 1, bucket, pl, aa, max_len);
        proof {
            assert(others@.len() < rest@.len());
            assert forall|i: int| 0 <= i < others@.len() implies group@.contains(
                #[trigger] others@[i],
            ) && ls[others@[i] as int].len() > p by {
                let k2 = choose|k2: int| 0 <= k2 < rest@.len() && #[trigger] rest@[k2] == others@[i];
            }
            assert forall|j: int| 0 <= j < n && !group@.contains(j as usize) implies pl@[j]
                == old(pl)@[j] && aa@[j] == old(aa)@[j] by {
                if bucket_v.contains(j as usize) {
                    let i = choose|i: int| 0 <= i < bucket_v.len() && bucket_v[i] == j as usize;
                    let k2 = choose|k2: int| 0 <= k2 < rest@.len() && #[trigger] rest@[k2] == bucket_v[i];
                }
            }
            assert forall|i: int, k: int|
                0 <= i < others@.len() && 0 <= k < group@.len() && ls[group@[k] as int].len() > p
                    && ls[group@[k] as int][p as int] == ls[#[trigger] others@[i] as int][p as int]
                    implies others@.contains(#[trigger] group@[k]) by {
                let k2 = choose|k2: int| 0 <= k2 < rest@.len() && #[trigger] rest@[k2] == others@[i];
                assert(rest@.contains(group@[k]));
                let k3 = choose|k3: int| 0 <= k3 < rest@.len() && rest@[k3] == group@[k];
                assert(ls[rest@[k3] as int][p as int] != c);
            }
            assert forall|k: int|
                0 <= k < group@.len() && !others@.contains(group@[k]) implies #[trigger] settled(
                ls,
                group@[k] as int,
                pl@[group@[k] as int],
                aa@[group@[k] as int],
            ) by {
                let g = group@[k];
                if bucket_v.contains(g) {
                    let i = choose|i: int| 0 <= i < bucket_v.len() && bucket_v[i] == g;
                    assert(settled(ls, bucket_v[i] as int, pl@[bucket_v[i] as int], aa@[bucket_v[i] as int]));
                } else {
                    assert(g < n);
                    if rest@.contains(g) {
                        let k3 = choose|k3: int| 0 <= k3 < rest@.len() && rest@[k3] == g;
                        assert(ls[rest@[k3] as int][p as int] == c ==> bucket_v.contains(rest@[k3]));
                    }
                    assert(pl@[g as int] == pl_before[g as int]);
                }
            }
        }
        rest = others;
    }
}

/// Computes, for each line, its entry: the shortest prefix length that sets it
/// apart from every other line, and whether it may be accepted automatically.
/// Starting from one group of all lines at prefix length 0, each group of two or
/// more lines is split by the character that follows the prefix.
pub fn generate_entries(lines: &[String]) -> (r: Vec<Entry>)
    ensures
        r@.len() == lines@.len(),
        forall|i: int| 0 <= i < lines@.len() ==> #[trigger] entry_for(texts(lines@), i, r@[i]),
{
    let n = lines.len();
    let ghost ls = texts(lines@);
    let mut cs: Vec<Vec<char>> = Vec::new();
    let mut max_len: usize = 0;
    for i in 0..n
        invariant
            n == lines@.len(),
            ls == texts(lines@),
            cs@.len() == i,
            forall|k: int| 0 <= k < i ==> (#[trigger] cs@[k])@ == ls[k],
            forall|k: int| 0 <= k < i ==> (#[trigger] cs@[k])@.len() <= max_len,
    {
        let line = chars_of(lines[i].as_str());
        if line.len() > max_len {
            max_len = line.len();
        }
        cs.push(line);
    }
    let mut entries: Vec<Entry> = Vec::new();
    if n == 0 {
        return entries;
    }
    assert(char_lines(cs@) =~= ls);
    let mut pl: Vec<usize> = Vec::new();
    let mut aa: Vec<bool> = Vec::new();
    let mut group: Vec<usize> = Vec::new();
    for i in 0..n
        invariant
            n == lines@.len(),
            pl@.len() == i,
            aa@.len() == i,
            group@.len() == i,
            forall|k: int| 0 <= k < i ==> #[trigger] group@[k] == k,
    {
        pl.push(0);
        aa.push(false);
        group.push(i);
    }
    proof {
        assert forall|j: int| 0 <= j < n implies #[trigger] agree_upto(ls[0], ls[j], 0) by {
            assert(ls[0].subrange(0, 0) =~= ls[j].subrange(0, 0));
        }
        assert forall|j: int| 0 <= j < n implies #[trigger] group@.contains(j as usize) by {
            assert(group@[j] == j);
        }
        assert(is_group(ls, group@, 0));
    }
    let ghost all = group@;
    settle_group(&cs, 0, group, &mut pl, &mut aa, max_len);
    for i in 0..n
        invariant
            n == lines@.len(),
            ls == texts(lines@),
            pl@.len() == n,
            aa@.len() == n,
            all.len() == n,
            forall|k: int| 0 <= k < n ==> #[trigger] all[k] == k,
            forall|k: int|
                0 <= k < all.len() ==> #[trigger] settled(
                    ls,
                    all[k] as int,
                    pl@[all[k] as int],
                    aa@[all[k] as int],
                ),
            entries@.len() == i,
            forall|k: int| 0 <= k < i ==> #[trigger] entry_for(ls, k, entries@[k]),
    {
        let e = Entry { body: lines[i].clone(), prefix_len: pl[i], auto_accept: aa[i] };
        assert(settled(ls, all[i as int] as int, pl@[all[i as int] as int], aa@[all[i as int] as int]));
        entries.push(e);
    }
    entries
}

/// An entry is selectable under `input` when its body starts with `input`.
pub open spec fn selectable(e: Entry, input: Seq<char>) -> bool {
    has_prefix(e.body@, input)
}

/// The entry is selectable under `input`, the input covers its unique prefix, and
/// it is eligible for automatic confirmation.
pub open spec fn acceptable(e: Entry, input: Seq<char>) -> bool {
    e.auto_accept && selectable(e, input) && e.prefix_len <= input.len()
}

impl Entry {
    /// The first `prefix_len` characters of the body.
    pub fn prefix(&self) -> (r: &str)
        requires
            self.prefix_len <= self.body@.len(),
        ensures
            r@ == self.body@.subrange(0, self.prefix_len as int),
    {
        self.body.as_str().substring_char(0, self.prefix_len)
    }

    /// Whether the body starts with `input`.
    pub fn is_selectable(&self, input: &str) -> (r: bool)
        ensures
            r == selectable(*self, input@),
    {
        str_starts_with(self.body.as_str(), input)
    }

    /// Where the body splits for display under `input`: nothing when the entry is
    /// not selectable; otherwise the end of the typed part and the end of the
    /// highlighted prefix, counted in characters.
    pub fn segment_bounds(&self, input: &str) -> (r: Option<(usize, usize)>)
        requires
            self.prefix_len <= self.body@.len(),
        ensures
            r is None == !selectable(*self, input@),
            match r {
                Some((typed, prefix_end)) => typed == input@.len() && prefix_end == if input@.len()
                    < self.prefix_len {
                    self.prefix_len as int
                } else {
                    input@.len() as int
                },
                None => true,
            },
    {
        if !self.is_selectable(input) {
            return None;
        }
        let typed = input.unicode_len();
        if typed < self.prefix_len {
            Some((typed, self.prefix_len))
        } else {
            Some((typed, typed))
        }
    }

    /// Whether typing `input` settles on this entry alone and it may be confirmed
    /// without an explicit accept.
    pub fn is_acceptable(&self, input: &str) -> (r: bool)
        ensures
            r == acceptable(*self, input@),
    {
        self.auto_accept && self.is_selectable(input) && self.prefix_len <= input.unicode_len()
    }
}


/// Some entry of `es` is selectable under `input`.
pub open spec fn any_selectable(es: Seq<Entry>, input: Seq<char>) -> bool {
    exists|i: int| 0 <= i < es.len() && #[trigger] selectable(es[i], input)
}

/// Entry `i` is the only one of `es` selectable under `input`.
pub open spec fn sole_selectable(es: Seq<Entry>, input: Seq<char>, i: int) -> bool {
    &&& 0 <= i < es.len()
    &&& selectable(es[i], input)
    &&& forall|j: int| 0 <= j < es.len() && j != i ==> !#[trigger] selectable(es[j], input)
}

/// The entry that `input` confirms automatically: the only selectable one, when
/// it is eligible.
pub open spec fn auto_target(es: Seq<Entry>, input: Seq<char>) -> Option<int> {
    if exists|i: int| #[trigger] sole_selectable(es, input, i) && es[i].auto_accept {
        Some(choose|i: int| #[trigger] sole_selectable(es, input, i) && es[i].auto_accept)
    } else {
        None
    }
}

/// The first selectable entry at index `k` or later.
pub open spec fn first_from(es: Seq<Entry>, input: Seq<char>, k: int) -> Option<int>
    decreases es.len() - k,
{
    if k < 0 || k >= es.len() {
        None
    } else if selectable(es[k], input) {
        Some(k)
    } else {
        first_from(es, input, k + 1)
    }
}

/// The last selectable entry before index `k`.
pub open spec fn last_before(es: Seq<Entry>, input: Seq<char>, k: int) -> Option<int>
    decreases k,
{
    if k <= 0 || k > es.len() {
        None
    } else if selectable(es[k - 1], input) {
        Some(k - 1)
    } else {
        last_before(es, input, k - 1)
    }
}

/// The selection after the input changed to `input`: the first selectable entry
/// from the old selection onward, else the nearest selectable one before it.
pub open spec fn reselect(es: Seq<Entry>, input: Seq<char>, sel: Option<int>) -> Option<int> {
    let start = match sel {
        Some(k) => k,
        None => 0,
    };
    match first_from(es, input, start) {
        Some(k) => Some(k),
        None => last_before(es, input, start),
    }
}

/// Direction of a selection move.
#[derive(Debug, Clone, Copy, PartialEq, Eq)]
pub enum SearchDirection {
    Forwards,
    Backwards,
}

/// One step from index `c` among `n` entries, wrapping at either end.
pub open spec fn step(n: int, c: int, dir: SearchDirection) -> int {
    match dir {
        SearchDirection::Forwards => if c + 1 == n { 0 } else { c + 1 },
        SearchDirection::Backwards => if c == 0 { n - 1 } else { c - 1 },
    }
}

/// The index reached from `start` after `d` steps.
pub open spec fn walk(n: int, start: int, d: int, dir: SearchDirection) -> int
    decreases d,
{
    if d <= 0 {
        start
    } else {
        step(n, walk(n, start, d - 1, dir), dir)
    }
}

/// The `d` steps from `start` pass over an end of the list.
pub open spec fn crosses(n: int, start: int, d: int, dir: SearchDirection) -> bool {
    match dir {
        SearchDirection::Forwards => start + d >= n,
        SearchDirection::Backwards => d > start,
    }
}

/// Where a move lands when the first `d - 1` steps found nothing: the first
/// selectable entry at `d` steps or more, within one cycle, unless the walk would
/// wrap while wrapping is off.
pub open spec fn move_scan(
    es: Seq<Entry>,
    input: Seq<char>,
    dir: SearchDirection,
    wrap: bool,
    start: int,
    d: int,
) -> Option<int>
    decreases es.len() + 1 - d,
{
    let n = es.len() as int;
    if d < 1 || d > n {
        None
    } else if crosses(n, start, d, dir) && !wrap {
        None
    } else if selectable(es[walk(n, start, d, dir)], input) {
        Some(walk(n, start, d, dir))
    } else {
        move_scan(es, input, dir, wrap, start, d + 1)
    }
}

/// Where a move from selection `sel` lands, if anywhere.
pub open spec fn move_target(
    es: Seq<Entry>,
    input: Seq<char>,
    dir: SearchDirection,
    wrap: bool,
    sel: Option<int>,
) -> Option<int> {
    let start = match sel {
        Some(k) => k,
        None => 0,
    };
    move_scan(es, input, dir, wrap, start, 1)
}

/// The selection after a move: the landing index, or the old selection when the
/// move aborts.
pub open spec fn moved(
    es: Seq<Entry>,
    input: Seq<char>,
    dir: SearchDirection,
    wrap: bool,
    sel: Option<int>,
) -> Option<int> {
    match move_target(es, input, dir, wrap, sel) {
        Some(k) => Some(k),
        None => sel,
    }
}

/// Within valid entries, an entry is acceptable under `input` exactly when it is
/// the only selectable one and it is eligible.
pub proof fn lemma_acceptable_iff_sole(es: Seq<Entry>, input: Seq<char>, k: int)
    requires
        entries_valid(es),
        0 <= k < es.len(),
    ensures
        acceptable(es[k], input) <==> (sole_selectable(es, input, k) && es[k].auto_accept),
{
    let ls = bodies(es);
    let m = input.len() as int;
    assert(entry_for(ls, k, es[k]));
    let p = es[k].prefix_len as int;
    if acceptable(es[k], input) {
        assert forall|j: int| 0 <= j < es.len() && j != k implies !#[trigger] selectable(
            es[j],
            input,
        ) by {
            if selectable(es[j], input) {
                assert(agree_upto(ls[k], ls[j], m));
                lemma_agree_shorter(ls[k], ls[j], m, p);
                assert(shared_at(ls, k, p));
            }
        }
    }
    if sole_selectable(es, input, k) && es[k].auto_accept && m < p {
        assert(shared_at(ls, k, m));
        let j = choose|j: int| 0 <= j < ls.len() && j != k && #[trigger] agree_upto(ls[k], ls[j], m);
        assert(selectable(es[j], input));
    }
}

/// The index type of a selection, as an integer.
pub open spec fn opt_int(o: Option<usize>) -> Option<int> {
    match o {
        Some(k) => Some(k as int),
        None => None,
    }
}

proof fn lemma_walk_range(n: int, start: int, d: int, dir: SearchDirection)
    requires
        0 <= start < n,
        0 <= d,
    ensures
        0 <= walk(n, start, d, dir) < n,
    decreases d,
{
    if d > 0 {
        lemma_walk_range(n, start, d - 1, dir);
    }
}

/// Steps from `start` that have not passed an end land at `start + d` or `start - d`.
proof fn lemma_walk_straight(n: int, start: int, d: int, dir: SearchDirection)
    requires
        0 <= start < n,
        0 <= d,
        !crosses(n, start, d, dir),
    ensures
        walk(n, start, d, dir) == match dir {
            SearchDirection::Forwards => start + d,
            SearchDirection::Backwards => start - d,
        },
    decreases d,
{
    if d > 0 {
        lemma_walk_straight(n, start, d - 1, dir);
    }
}

/// Within one cycle, the walk from `start` lands at `start + d` or `start - d`,
/// brought back into `0..n`.
pub proof fn lemma_walk_cycle(n: int, start: int, d: int, dir: SearchDirection)
    requires
        0 <= start < n,
        0 <= d <= n,
    ensures
        walk(n, start, d, dir) == match dir {
            SearchDirection::Forwards => if start + d < n { start + d } else { start + d - n },
            SearchDirection::Backwards => if d <= start { start - d } else { start - d + n },
        },
    decreases d,
{
    if d > 0 {
        lemma_walk_cycle(n, start, d - 1, dir);
    }
}

proof fn lemma_first_from_range(es: Seq<Entry>, input: Seq<char>, k: int)
    requires
        first_from(es, input, k) is Some,
    ensures
        k <= first_from(es, input, k)->0 < es.len(),
    decreases es.len() - k,
{
    if 0 <= k < es.len() && !selectable(es[k], input) {
        lemma_first_from_range(es, input, k + 1);
    }
}

proof fn lemma_last_before_range(es: Seq<Entry>, input: Seq<char>, k: int)
    requires
        last_before(es, input, k) is Some,
    ensures
        0 <= last_before(es, input, k)->0 < k <= es.len(),
    decreases k,
{
    if 0 < k <= es.len() && !selectable(es[k - 1], input) {
        lemma_last_before_range(es, input, k - 1);
    }
}

/// A line that is no prefix of any other line, and has no duplicate, gets an
/// entry that may be auto-accepted.
pub proof fn lemma_distinct_line_auto_accepts(lines: Seq<Seq<char>>, i: int, e: Entry)
    requires
        0 <= i < lines.len(),
        entry_for(lines, i, e),
        forall|j: int| 0 <= j < lines.len() && j != i ==> !has_prefix(#[trigger] lines[j], lines[i]),
    ensures
        e.auto_accept,
{
    let p = e.prefix_len as int;
    if shared_at(lines, i, p) {
        let j = choose|j: int|
            0 <= j < lines.len() && j != i && #[trigger] agree_upto(lines[i], lines[j], p);
        assert(p == lines[i].len());
        assert(lines[i].subrange(0, p) == lines[i]);
        assert(has_prefix(lines[j], lines[i]));
    }
}

/// A line with a duplicate gets an entry that is never auto-accepted, whose
/// prefix is the whole line.
pub proof fn lemma_duplicate_line_is_ambiguous(lines: Seq<Seq<char>>, i: int, j: int, e: Entry)
    requires
        0 <= i < lines.len(),
        0 <= j < lines.len(),
        i != j,
        lines[i] == lines[j],
        entry_for(lines, i, e),
    ensures
        !e.auto_accept,
        e.prefix_len == lines[i].len(),
{
    let p = e.prefix_len as int;
    assert(agree_upto(lines[i], lines[j], p));
    assert(shared_at(lines, i, p));
}

/// The selection after `t` moves from `sel`.
pub open spec fn moved_times(
    es: Seq<Entry>,
    input: Seq<char>,
    dir: SearchDirection,
    wrap: bool,
    sel: Option<int>,
    t: nat,
) -> Option<int>
    decreases t,
{
    if t == 0 {
        sel
    } else {
        moved(es, input, dir, wrap, moved_times(es, input, dir, wrap, sel, (t - 1) as nat))
    }
}

proof fn lemma_moves_walk(es: Seq<Entry>, dir: SearchDirection, start: int, t: nat)
    requires
        0 <= start < es.len(),
        t <= es.len(),
    ensures
        moved_times(es, Seq::empty(), dir, true, Some(start), t) == Some(
            walk(es.len() as int, start, t as int, dir),
        ),
    decreases t,
{
    let n = es.len() as int;
    if t > 0 {
        lemma_moves_walk(es, dir, start, (t - 1) as nat);
        let w = walk(n, start, t - 1, dir);
        lemma_walk_range(n, start, t - 1, dir);
        let c = walk(n, w, 1, dir);
        lemma_walk_range(n, w, 1, dir);
        assert(es[c].body@.subrange(0, 0) == Seq::<char>::empty());
        assert(selectable(es[c], Seq::empty()));
        assert(walk(n, w, 0, dir) == w);
        assert(c == walk(n, start, t as int, dir));
        assert(move_scan(es, Seq::empty(), dir, true, w, 1) == Some(c));
        assert(moved(es, Seq::empty(), dir, true, Some(w)) == Some(c));
    }
}

/// With wrapping on and an empty input, moving as many times as there are entries,
/// in either direction, brings the selection back where it started.
pub proof fn lemma_full_cycle_returns(es: Seq<Entry>, dir: SearchDirection, start: int)
    requires
        0 <= start < es.len(),
    ensures
        moved_times(es, Seq::empty(), dir, true, Some(start), es.len()) == Some(start),
{
    lemma_moves_walk(es, dir, start, es.len());
    lemma_walk_cycle(es.len() as int, start, es.len() as int, dir);
}

/// With wrapping off, a backward move from the first entry aborts and leaves the
/// selection where it is.
pub proof fn lemma_backward_from_first_aborts(es: Seq<Entry>, input: Seq<char>)
    requires
        es.len() > 0,
    ensures
        move_target(es, input, SearchDirection::Backwards, false, Some(0)) is None,
        moved(es, input, SearchDirection::Backwards, false, Some(0)) == Some(0int),
{
}

proof fn lemma_first_from_none(es: Seq<Entry>, input: Seq<char>, k: int, m: int)
    requires
        first_from(es, input, k) is None,
        0 <= k <= m < es.len(),
    ensures
        !selectable(es[m], input),
    decreases m - k,
{
    if k < m {
        lemma_first_from_none(es, input, k + 1, m);
    }
}

proof fn lemma_last_before_none(es: Seq<Entry>, input: Seq<char>, k: int, m: int)
    requires
        last_before(es, input, k) is None,
        0 <= m < k <= es.len(),
    ensures
        !selectable(es[m], input),
    decreases k - m,
{
    if m < k - 1 {
        lemma_last_before_none(es, input, k - 1, m);
    }
}

proof fn lemma_first_from_some(es: Seq<Entry>, input: Seq<char>, k: int)
    requires
        first_from(es, input, k) is Some,
    ensures
        selectable(es[first_from(es, input, k)->0], input),
    decreases es.len() - k,
{
    if 0 <= k < es.len() && !selectable(es[k], input) {
        lemma_first_from_some(es, input, k + 1);
    }
}

proof fn lemma_last_before_some(es: Seq<Entry>, input: Seq<char>, k: int)
    requires
        last_before(es, input, k) is Some,
    ensures
        selectable(es[last_before(es, input, k)->0], input),
    decreases k,
{
    if 0 < k <= es.len() && !selectable(es[k - 1], input) {
        lemma_last_before_some(es, input, k - 1);
    }
}

/// The selection after an input change is a selectable entry, and there is none
/// exactly when no entry is selectable.
pub proof fn lemma_reselect_selectable(es: Seq<Entry>, input: Seq<char>, sel: Option<int>)
    requires
        match sel {
            Some(k) => 0 <= k < es.len(),
            None => true,
        },
    ensures
        match reselect(es, input, sel) {
            Some(k) => 0 <= k < es.len() && selectable(es[k], input),
            None => !any_selectable(es, input),
        },
{
    let start = match sel {
        Some(k) => k,
        None => 0,
    };
    if first_from(es, input, start) is Some {
        lemma_first_from_range(es, input, start);
        lemma_first_from_some(es, input, start);
    } else if last_before(es, input, start) is Some {
        lemma_last_before_range(es, input, start);
        lemma_last_before_some(es, input, start);
    } else {
        assert forall|m: int| 0 <= m < es.len() implies !#[trigger] selectable(es[m], input) by {
            if m >= start {
                lemma_first_from_none(es, input, start, m);
            } else {
                lemma_last_before_none(es, input, start, m);
            }
        }
    }
}

proof fn lemma_move_scan_selectable(
    es: Seq<Entry>,
    input: Seq<char>,
    dir: SearchDirection,
    wrap: bool,
    start: int,
    d: int,
)
    requires
        0 <= start < es.len(),
        move_scan(es, input, dir, wrap, start, d) is Some,
    ensures
        0 <= move_scan(es, input, dir, wrap, start, d)->0 < es.len(),
        selectable(es[move_scan(es, input, dir, wrap, start, d)->0], input),
    decreases es.len() + 1 - d,
{
    let n = es.len() as int;
    if 1 <= d <= n {
        lemma_walk_range(n, start, d, dir);
        if !(crosses(n, start, d, dir) && !wrap) && !selectable(es[walk(n, start, d, dir)], input) {
            lemma_move_scan_selectable(es, input, dir, wrap, start, d + 1);
        }
    }
}

/// A move lands on a selectable entry.
pub proof fn lemma_moved_selectable(
    es: Seq<Entry>,
    input: Seq<char>,
    dir: SearchDirection,
    wrap: bool,
    sel: Option<int>,
)
    requires
        es.len() > 0,
        match sel {
            Some(k) => 0 <= k < es.len(),
            None => true,
        },
        move_target(es, input, dir, wrap, sel) is Some,
    ensures
        0 <= move_target(es, input, dir, wrap, sel)->0 < es.len(),
        selectable(es[move_target(es, input, dir, wrap, sel)->0], input),
{
    let start = match sel {
        Some(k) => k,
        None => 0,
    };
    lemma_move_scan_selectable(es, input, dir, wrap, start, 1);
}

/// The menu: its entries, in input order, and the selected index if any.
#[derive(Debug, Clone)]
pub struct Menu {
    entries: Vec<Entry>,
    selection: Option<usize>,
}

impl Menu {
    /// The entries of the menu.
    pub closed spec fn entries_view(&self) -> Seq<Entry> {
        self.entries@
    }

    /// The selected index, if any.
    pub closed spec fn selection_view(&self) -> Option<int> {
        match self.selection {
            Some(k) => Some(k as int),
            None => None,
        }
    }

    /// At least one entry, each computed from all bodies, and a selection in range.
    pub open spec fn wf(&self) -> bool {
        &&& self.entries_view().len() > 0
        &&& entries_valid(self.entries_view())
        &&& match self.selection_view() {
            Some(k) => 0 <= k < self.entries_view().len(),
            None => true,
        }
    }

    /// Builds the menu of `lines`, with the first entry selected.
    pub fn from_lines(lines: &[String]) -> (r: Menu)
        requires
            lines@.len() > 0,
        ensures
            r.wf(),
            r.entries_view().len() == lines@.len(),
            forall|i: int|
                0 <= i < lines@.len() ==> #[trigger] entry_for(
                    texts(lines@),
                    i,
                    r.entries_view()[i],
                ),
            r.selection_view() == Some(0int),
    {
        let entries = generate_entries(lines);
        assert forall|i: int| 0 <= i < lines@.len() implies bodies(entries@)[i] == texts(
            lines@,
        )[i] by {
            assert(entry_for(texts(lines@), i, entries@[i]));
        }
        assert(bodies(entries@) =~= texts(lines@));
        Menu { entries, selection: Some(0) }
    }

    /// Number of entries.
    pub fn len(&self) -> (r: usize)
        ensures
            r == self.entries_view().len(),
    {
        self.entries.len()
    }

    /// The entries, in input order.
    pub fn entries(&self) -> (r: &[Entry])
        ensures
            r@ == self.entries_view(),
    {
        self.entries.as_slice()
    }

    /// The selected index, if any.
    pub fn selection(&self) -> (r: Option<&usize>)
        ensures
            r is Some == self.selection_view() is Some,
            r is Some ==> *r->0 == self.selection_view()->0,
    {
        self.selection.as_ref()
    }

    /// Whether some entry is selectable under `input`.
    pub fn has_selectable(&self, input: &str) -> (r: bool)
        ensures
            r == any_selectable(self.entries_view(), input@),
    {
        let mut i: usize = 0;
        while i < self.entries.len()
            invariant
                forall|k: int| 0 <= k < i ==> !#[trigger] selectable(self.entries@[k], input@),
            decreases self.entries.len() - i,
        {
            if self.entries[i].is_selectable(input) {
                return true;
            }
            i = i + 1;
        }
        false
    }

    /// The entry that `input` confirms automatically: the only selectable entry,
    /// when it is eligible for auto-accept.
    pub fn find_acceptable(&self, input: &str) -> (r: Option<&Entry>)
        requires
            self.wf(),
        ensures
            r is Some == auto_target(self.entries_view(), input@) is Some,
            r is Some ==> *r->0 == self.entries_view()[auto_target(
                self.entries_view(),
                input@,
            )->0],
    {
        let ghost es = self.entries@;
        let mut i: usize = 0;
        while i < self.entries.len()
            invariant
                es == self.entries@,
                entries_valid(es),
                forall|k: int| 0 <= k < i ==> !#[trigger] acceptable(es[k], input@),
            decreases self.entries.len() - i,
        {
            if self.entries[i].is_acceptable(input) {
                proof {
                    lemma_acceptable_iff_sole(es, input@, i as int);
                    assert(sole_selectable(es, input@, i as int) && es[i as int].auto_accept);
                    let c = choose|c: int| #[trigger]
                        sole_selectable(es, input@, c) && es[c].auto_accept;
                    assert(c == i);
                }
                return Some(&self.entries[i]);
            }
            i = i + 1;
        }
        proof {
            if exists|c: int| #[trigger] sole_selectable(es, input@, c) && es[c].auto_accept {
                let c = choose|c: int| #[trigger]
                    sole_selectable(es, input@, c) && es[c].auto_accept;
                lemma_acceptable_iff_sole(es, input@, c);
                assert(!acceptable(es[c], input@));
            }
        }
        None
    }

    /// The first entry selectable under `input` at index `start` or later.
    fn first_selectable_from(&self, input: &str, start: usize) -> (r: Option<usize>)
        ensures
            opt_int(r) == first_from(self.entries_view(), input@, start as int),
    {
        let mut k: usize = start;
        while k < self.entries.len()
            invariant
                start <= k,
                first_from(self.entries@, input@, start as int) == first_from(
                    self.entries@,
                    input@,
                    k as int,
                ),
            decreases self.entries.len() - k,
        {
            if self.entries[k].is_selectable(input) {
                return Some(k);
            }
            k = k + 1;
        }
        None
    }

    /// The last entry selectable under `input` before index `end`.
    fn last_selectable_before(&self, input: &str, end: usize) -> (r: Option<usize>)
        requires
            end <= self.entries_view().len(),
        ensures
            opt_int(r) == last_before(self.entries_view(), input@, end as int),
    {
        let mut k: usize = end;
        while k > 0
            invariant
                k <= end <= self.entries@.len(),
                last_before(self.entries@, input@, end as int) == last_before(
                    self.entries@,
                    input@,
                    k as int,
                ),
            decreases k,
        {
            if self.entries[k - 1].is_selectable(input) {
                return Some(k - 1);
            }
            k = k - 1;
        }
        None
    }

    /// Recomputes the selection after the input became `new_input`: the first
    /// selectable entry from the current selection onward, else the nearest
    /// selectable one before it, else none. Reports whether the selection changed.
    pub fn update_selection(&mut self, new_input: &str) -> (r: bool)
        requires
            old(self).wf(),
        ensures
            final(self).wf(),
            final(self).entries_view() == old(self).entries_view(),
            final(self).selection_view() == reselect(
                old(self).entries_view(),
                new_input@,
                old(self).selection_view(),
            ),
            r == (final(self).selection_view() != old(self).selection_view()),
    {
        let start = match self.selection {
            Some(sel) => sel,
            None => 0,
        };
        let found = match self.first_selectable_from(new_input, start) {
            Some(k) => Some(k),
            None => self.last_selectable_before(new_input, start),
        };
        proof {
            match found {
                Some(k) => {
                    if first_from(self.entries@, new_input@, start as int) is Some {
                        lemma_first_from_range(self.entries@, new_input@, start as int);
                    } else {
                        lemma_last_before_range(self.entries@, new_input@, start as int);
                    }
                },
                None => {},
            }
        }
        if self.selection != found {
            self.selection = found;
            true
        } else {
            false
        }
    }

    /// Moves the selection one selectable entry in `direction`, stepping over
    /// entries not selectable under `input`. Starts from index 0 when nothing is
    /// selected. Aborts, leaving the selection as it is, when the walk would pass
    /// an end of the list while `wrap` is off, or when a full cycle finds nothing.
    /// Reports whether it moved.
    pub fn move_selection(&mut self, input: &str, direction: SearchDirection, wrap: bool) -> (r:
        bool)
        requires
            old(self).wf(),
        ensures
            final(self).wf(),
            final(self).entries_view() == old(self).entries_view(),
            final(self).selection_view() == moved(
                old(self).entries_view(),
                input@,
                direction,
                wrap,
                old(self).selection_view(),
            ),
            r == move_target(
                old(self).entries_view(),
                input@,
                direction,
                wrap,
                old(self).selection_view(),
            ) is Some,
    {
        let n = self.entries.len();
        let start = match self.selection {
            Some(sel) => sel,
            None => 0,
        };
        let ghost es = self.entries@;
        let mut candidate = start;
        // Steps taken so far.
        let mut d: usize = 0;
        assert(move_target(es, input@, direction, wrap, old(self).selection_view()) == move_scan(
            es,
            input@,
            direction,
            wrap,
            start as int,
            1,
        ));
        while d < n
            invariant
                es == self.entries@,
                es == old(self).entries@,
                n == es.len(),
                self.wf(),
                self.selection == old(self).selection,
                0 <= start < n,
                d <= n,
                candidate == walk(n as int, start as int, d as int, direction),
                move_scan(es, input@, direction, wrap, start as int, 1) == move_scan(
                    es,
                    input@,
                    direction,
                    wrap,
                    start as int,
                    d + 1,
                ),
                wrap || !crosses(n as int, start as int, d as int, direction),
                move_target(es, input@, direction, wrap, old(self).selection_view()) == move_scan(
                    es,
                    input@,
                    direction,
                    wrap,
                    start as int,
                    1,
                ),
            decreases n - d,
        {
            proof {
                lemma_walk_range(n as int, start as int, d as int, direction);
                if !wrap {
                    lemma_walk_straight(n as int, start as int, d as int, direction);
                }
            }
            let (next, did_wrap) = match direction {
                SearchDirection::Forwards => wrapping_inc(candidate, n),
                SearchDirection::Backwards => wrapping_dec(candidate, n),
            };
            candidate = next;
            d = d + 1;
            assert(candidate == walk(n as int, start as int, d as int, direction));
            if did_wrap && !wrap {
                proof {
                    match direction {
                        SearchDirection::Forwards => {
                            assert(crosses(n as int, start as int, d as int, direction));
                        },
                        SearchDirection::Backwards => {
                            assert(crosses(n as int, start as int, d as int, direction));
                        },
                    }
                    assert(move_scan(es, input@, direction, wrap, start as int, d as int) is None);
                }
                return false;
            }
            if self.entries[candidate].is_selectable(input) {
                self.selection = Some(candidate);
                return true;
            }
        }
        false
    }

    /// The selected entry, if any.
    pub fn manual_accept(&self) -> (r: Option<&Entry>)
        requires
            self.wf(),
        ensures
            r is Some == self.selection_view() is Some,
            r is Some ==> *r->0 == self.entries_view()[self.selection_view()->0],
    {
        match self.selection {
            Some(sel) => Some(&self.entries[sel]),
            None => None,
        }
    }
}

} // verus!
