//! How reports are counted: one vote per (reporter, title), the reporter's
//! newest report that votes at all (the first of equally numbered ones), and
//! votes grouped by what they vote for: a title, or a title and a launch
//! option. Groups come out in the order of what they vote for.

use vstd::prelude::*;
use vstd::relations::{sorted_by, total_ordering};
use crate::text::{lemma_lex_order, lex_less, lex_lt, seq_eq};

verus! {

/// One report as the tally sees it.
pub struct Ballot {
    pub author: Seq<char>,
    pub identity: Seq<char>,
    /// What the report votes for beyond its title (a launch option), empty
    /// when only the title is counted.
    pub choice: Seq<char>,
    pub number: u64,
    /// Whether the report votes at all.
    pub counts: bool,
}

/// A [`Ballot`] held in memory.
pub struct BallotBox {
    pub author: Vec<char>,
    pub identity: Vec<char>,
    pub choice: Vec<char>,
    pub number: u64,
    pub counts: bool,
}

impl View for BallotBox {
    type V = Ballot;

    open spec fn view(&self) -> Ballot {
        Ballot {
            author: self.author@,
            identity: self.identity@,
            choice: self.choice@,
            number: self.number,
            counts: self.counts,
        }
    }
}

pub open spec fn ballots_view(bs: Seq<BallotBox>) -> Seq<Ballot> {
    bs.map_values(|b: BallotBox| b@)
}

/// Two reports by the same reporter for the same title.
pub open spec fn same_slot(a: Ballot, b: Ballot) -> bool {
    a.author == b.author && a.identity == b.identity
}

/// Report `i` is its reporter's vote for its title: it votes, and every
/// other voting report of the same reporter for the same title has a lower
/// number, or the same number and comes later.
pub open spec fn is_latest(bs: Seq<Ballot>, i: int) -> bool {
    &&& 0 <= i < bs.len()
    &&& bs[i].counts
    &&& forall|j: int|
        0 <= j < bs.len() && bs[j].counts && #[trigger] same_slot(bs[j], bs[i]) ==> bs[j].number
            < bs[i].number || (bs[j].number == bs[i].number && i <= j)
}

/// What a report votes for.
pub open spec fn key_of(bs: Seq<Ballot>, i: int) -> (Seq<char>, Seq<char>) {
    (bs[i].identity, bs[i].choice)
}

pub open spec fn in_group(bs: Seq<Ballot>, key: (Seq<char>, Seq<char>), i: int) -> bool {
    is_latest(bs, i) && key_of(bs, i) == key
}

/// The votes for `key` among the first `k` reports, in report order.
pub open spec fn group_upto(bs: Seq<Ballot>, key: (Seq<char>, Seq<char>), k: int) -> Seq<int>
    decreases k,
{
    if k <= 0 {
        Seq::empty()
    } else if in_group(bs, key, k - 1) {
        group_upto(bs, key, k - 1).push(k - 1)
    } else {
        group_upto(bs, key, k - 1)
    }
}

/// The votes for `key`, in report order.
pub open spec fn group(bs: Seq<Ballot>, key: (Seq<char>, Seq<char>)) -> Seq<int> {
    group_upto(bs, key, bs.len() as int)
}

/// The order groups come out in: by title, then by choice.
pub open spec fn key_lt(a: (Seq<char>, Seq<char>), b: (Seq<char>, Seq<char>)) -> bool {
    lex_lt(a.0, b.0) || (a.0 == b.0 && lex_lt(a.1, b.1))
}

pub proof fn lemma_key_order(a: (Seq<char>, Seq<char>), b: (Seq<char>, Seq<char>), c: (Seq<char>, Seq<char>))
    ensures
        !key_lt(a, a),
        a != b ==> key_lt(a, b) || key_lt(b, a),
        key_lt(a, b) ==> !key_lt(b, a),
        key_lt(a, b) && key_lt(b, c) ==> key_lt(a, c),
{
    lemma_lex_order(a.0, b.0, c.0);
    lemma_lex_order(a.1, b.1, c.1);
    lemma_lex_order(b.0, a.0, c.0);
    lemma_lex_order(b.1, a.1, c.1);
}

/// What `group_upto` holds, said plainly.
pub proof fn lemma_group_upto(bs: Seq<Ballot>, key: (Seq<char>, Seq<char>), k: int)
    requires
        0 <= k <= bs.len(),
    ensures
        forall|m: int| 0 <= m < group_upto(bs, key, k).len() ==> 0 <= #[trigger] group_upto(bs, key, k)[m] < k
            && in_group(bs, key, group_upto(bs, key, k)[m]),
        forall|a: int, b: int| 0 <= a < b < group_upto(bs, key, k).len() ==> #[trigger] group_upto(bs, key, k)[a]
            < #[trigger] group_upto(bs, key, k)[b],
        forall|i: int| 0 <= i < k && in_group(bs, key, i) ==> #[trigger] group_upto(bs, key, k).contains(i),
    decreases k,
{
    if k > 0 {
        lemma_group_upto(bs, key, k - 1);
        let g = group_upto(bs, key, k - 1);
        if in_group(bs, key, k - 1) {
            assert forall|i: int| 0 <= i < k && in_group(bs, key, i) implies #[trigger] group_upto(bs, key, k).contains(i) by {
                if i < k - 1 {
                    assert(g.contains(i));
                    let m = choose|m: int| 0 <= m < g.len() && g[m] == i;
                    assert(group_upto(bs, key, k)[m] == i);
                } else {
                    assert(group_upto(bs, key, k)[g.len() as int] == i);
                }
            }
        } else {
            assert forall|i: int| 0 <= i < k && in_group(bs, key, i) implies #[trigger] group_upto(bs, key, k).contains(i) by {
                assert(g.contains(i));
            }
        }
    }
}

/// A group of the first `k1` reports is where the group of the first `k2`
/// starts.
pub proof fn lemma_group_prefix(bs: Seq<Ballot>, key: (Seq<char>, Seq<char>), k1: int, k2: int)
    requires
        0 <= k1 <= k2,
    ensures
        group_upto(bs, key, k1).len() <= group_upto(bs, key, k2).len(),
        group_upto(bs, key, k2).take(group_upto(bs, key, k1).len() as int) == group_upto(bs, key, k1),
    decreases k2 - k1,
{
    if k1 < k2 {
        lemma_group_prefix(bs, key, k1, k2 - 1);
        let g1 = group_upto(bs, key, k1);
        let g2 = group_upto(bs, key, k2 - 1);
        if in_group(bs, key, k2 - 1) {
            assert(g2.push(k2 - 1).take(g1.len() as int) == g2.take(g1.len() as int));
        }
    } else {
        assert(group_upto(bs, key, k2).take(group_upto(bs, key, k1).len() as int) == group_upto(bs, key, k1));
    }
}

/// A vote with no vote for the same thing before it opens its group.
pub proof fn lemma_group_first(bs: Seq<Ballot>, i: int)
    requires
        is_latest(bs, i),
        group_upto(bs, key_of(bs, i), i).len() == 0,
    ensures
        group(bs, key_of(bs, i)).len() > 0,
        group(bs, key_of(bs, i))[0] == i,
{
    let key = key_of(bs, i);
    assert(in_group(bs, key, i));
    assert(group_upto(bs, key, i + 1) == seq![i]);
    lemma_group_prefix(bs, key, i + 1, bs.len() as int);
    assert(group(bs, key).take(1) == seq![i]);
    assert(group(bs, key)[0] == group(bs, key).take(1)[0]);
}

/// One vote per reporter: no two votes of a group come from the same
/// reporter.
pub proof fn lemma_one_vote_per_reporter(bs: Seq<Ballot>, key: (Seq<char>, Seq<char>))
    ensures
        forall|a: int, b: int| 0 <= a < b < group(bs, key).len() ==> bs[#[trigger] group(bs, key)[a]].author
            != bs[#[trigger] group(bs, key)[b]].author,
{
    lemma_group_upto(bs, key, bs.len() as int);
    let g = group(bs, key);
    assert forall|a: int, b: int| 0 <= a < b < g.len() implies bs[#[trigger] g[a]].author != bs[#[trigger] g[b]].author by {
        let x = g[a];
        let y = g[b];
        assert(in_group(bs, key, x) && in_group(bs, key, y));
        assert(x < y);
        if bs[x].author == bs[y].author {
            assert(same_slot(bs[y], bs[x]));
            assert(same_slot(bs[x], bs[y]));
        }
    }
}

fn same_slot_exec(a: &BallotBox, b: &BallotBox) -> (r: bool)
    ensures
        r == same_slot(a@, b@),
{
    seq_eq(&a.author, &b.author) && seq_eq(&a.identity, &b.identity)
}

fn latest_at(bs: &Vec<BallotBox>, i: usize) -> (r: bool)
    requires
        i < bs.len(),
    ensures
        r == is_latest(ballots_view(bs@), i as int),
{
    let ghost v = ballots_view(bs@);
    if !bs[i].counts {
        return false;
    }
    let mut j: usize = 0;
    while j < bs.len()
        invariant
            i < bs.len(),
            j <= bs.len(),
            v == ballots_view(bs@),
            v[i as int].counts,
            forall|m: int|
                0 <= m < j && v[m].counts && #[trigger] same_slot(v[m], v[i as int]) ==> v[m].number
                    < v[i as int].number || (v[m].number == v[i as int].number && i <= m),
        decreases bs.len() - j,
    {
        if bs[j].counts && same_slot_exec(&bs[j], &bs[i]) {
            if !(bs[j].number < bs[i].number || (bs[j].number == bs[i].number && i <= j)) {
                assert(same_slot(v[j as int], v[i as int]));
                return false;
            }
        }
        j += 1;
    }
    true
}

/// Which reports are votes.
fn latest_flags(bs: &Vec<BallotBox>) -> (r: Vec<bool>)
    ensures
        r@.len() == bs@.len(),
        forall|i: int| 0 <= i < bs@.len() ==> r@[i] == is_latest(ballots_view(bs@), i),
{
    let mut r: Vec<bool> = Vec::new();
    let mut i: usize = 0;
    while i < bs.len()
        invariant
            i <= bs.len(),
            r@.len() == i,
            forall|m: int| 0 <= m < i ==> r@[m] == is_latest(ballots_view(bs@), m),
        decreases bs.len() - i,
    {
        r.push(latest_at(bs, i));
        i += 1;
    }
    r
}

fn same_key(a: &BallotBox, b: &BallotBox) -> (r: bool)
    ensures
        r == ((a@.identity, a@.choice) == (b@.identity, b@.choice)),
{
    seq_eq(&a.identity, &b.identity) && seq_eq(&a.choice, &b.choice)
}

fn key_less(a: &BallotBox, b: &BallotBox) -> (r: bool)
    ensures
        r == key_lt((a@.identity, a@.choice), (b@.identity, b@.choice)),
{
    lex_less(&a.identity, &b.identity) || (seq_eq(&a.identity, &b.identity) && lex_less(&a.choice, &b.choice))
}

pub open spec fn indices(v: Seq<usize>) -> Seq<int> {
    v.map_values(|x: usize| x as int)
}

/// The votes for what report `i` votes for.
fn group_of(bs: &Vec<BallotBox>, flags: &Vec<bool>, i: usize) -> (r: Vec<usize>)
    requires
        i < bs.len(),
        flags@.len() == bs@.len(),
        forall|m: int| 0 <= m < bs@.len() ==> flags@[m] == is_latest(ballots_view(bs@), m),
    ensures
        indices(r@) == group(ballots_view(bs@), key_of(ballots_view(bs@), i as int)),
{
    let ghost v = ballots_view(bs@);
    let ghost key = key_of(v, i as int);
    let mut r: Vec<usize> = Vec::new();
    let mut k: usize = 0;
    while k < bs.len()
        invariant
            i < bs.len(),
            k <= bs.len(),
            v == ballots_view(bs@),
            key == key_of(v, i as int),
            flags@.len() == bs@.len(),
            forall|m: int| 0 <= m < bs@.len() ==> flags@[m] == is_latest(v, m),
            indices(r@) == group_upto(v, key, k as int),
        decreases bs.len() - k,
    {
        if flags[k] && same_key(&bs[k], &bs[i]) {
            r.push(k);
            assert(indices(r@) == group_upto(v, key, k as int).push(k as int));
        }
        k += 1;
    }
    r
}

/// Whether a vote for what report `i` votes for comes before `i`.
fn has_earlier(bs: &Vec<BallotBox>, flags: &Vec<bool>, i: usize) -> (r: bool)
    requires
        i < bs.len(),
        flags@.len() == bs@.len(),
        forall|m: int| 0 <= m < bs@.len() ==> flags@[m] == is_latest(ballots_view(bs@), m),
    ensures
        r == exists|j: int| 0 <= j < i && #[trigger] in_group(ballots_view(bs@), key_of(ballots_view(bs@), i as int), j),
{
    let ghost v = ballots_view(bs@);
    let mut j: usize = 0;
    while j < i
        invariant
            i < bs.len(),
            j <= i,
            v == ballots_view(bs@),
            flags@.len() == bs@.len(),
            forall|m: int| 0 <= m < bs@.len() ==> flags@[m] == is_latest(v, m),
            forall|m: int| 0 <= m < j ==> !#[trigger] in_group(v, key_of(v, i as int), m),
        decreases i - j,
    {
        if flags[j] && same_key(&bs[j], &bs[i]) {
            assert(in_group(v, key_of(v, i as int), j as int));
            return true;
        }
        j += 1;
    }
    false
}

/// Every group of votes, once each, ordered by what it votes for.
pub fn groups_in_order(bs: &Vec<BallotBox>) -> (r: Vec<Vec<usize>>)
    ensures
        forall|k: int| 0 <= k < r@.len() ==> #[trigger] r@[k]@.len() > 0 && r@[k]@[0] < bs@.len()
            && indices(r@[k]@) == group(ballots_view(bs@), key_of(ballots_view(bs@), r@[k]@[0] as int)),
        forall|a: int, b: int| 0 <= a < b < r@.len() ==> key_lt(
            key_of(ballots_view(bs@), #[trigger] r@[a]@[0] as int),
            key_of(ballots_view(bs@), #[trigger] r@[b]@[0] as int),
        ),
        forall|i: int| #[trigger] is_latest(ballots_view(bs@), i) ==> exists|k: int| 0 <= k < r@.len()
            && key_of(ballots_view(bs@), #[trigger] r@[k]@[0] as int) == key_of(ballots_view(bs@), i),
{
    let ghost v = ballots_view(bs@);
    let flags = latest_flags(bs);
    let mut r: Vec<Vec<usize>> = Vec::new();
    let mut i: usize = 0;
    while i < bs.len()
        invariant
            i <= bs.len(),
            v == ballots_view(bs@),
            flags@.len() == bs@.len(),
            forall|m: int| 0 <= m < bs@.len() ==> flags@[m] == is_latest(v, m),
            forall|k: int| 0 <= k < r@.len() ==> #[trigger] r@[k]@.len() > 0 && r@[k]@[0] < i
                && indices(r@[k]@) == group(v, key_of(v, r@[k]@[0] as int)),
            forall|a: int, b: int| 0 <= a < b < r@.len() ==> key_lt(
                key_of(v, #[trigger] r@[a]@[0] as int),
                key_of(v, #[trigger] r@[b]@[0] as int),
            ),
            forall|j: int| 0 <= j < i && #[trigger] is_latest(v, j) ==> exists|k: int| 0 <= k < r@.len()
                && key_of(v, #[trigger] r@[k]@[0] as int) == key_of(v, j),
        decreases bs.len() - i,
    {
        if flags[i] {
            let earlier = has_earlier(bs, &flags, i);
            if !earlier {
                let ghost key = key_of(v, i as int);
                proof {
                    lemma_group_upto(v, key, i as int);
                    if group_upto(v, key, i as int).len() > 0 {
                        let j = group_upto(v, key, i as int)[0];
                        assert(in_group(v, key, j));
                    }
                    lemma_group_first(v, i as int);
                }
                let g = group_of(bs, &flags, i);
                assert(g@[0] == i);
                // Where the new group goes: after every group voting for
                // something smaller.
                let mut p: usize = 0;
                while p < r.len() && key_less(&bs[r[p][0]], &bs[i])
                    invariant
                        p <= r@.len(),
                        i < bs.len(),
                        v == ballots_view(bs@),
                        key == key_of(v, i as int),
                        forall|k: int| 0 <= k < r@.len() ==> #[trigger] r@[k]@.len() > 0 && r@[k]@[0] < i,
                        forall|k: int| 0 <= k < p ==> key_lt(key_of(v, #[trigger] r@[k]@[0] as int), key),
                    decreases r@.len() - p,
                {
                    p += 1;
                }
                proof {
                    assert forall|k: int| 0 <= k < r@.len() implies key_of(v, #[trigger] r@[k]@[0] as int) != key by {
                        let f = r@[k]@[0] as int;
                        if key_of(v, f) == key {
                            assert(group(v, key)[0] == i);
                            assert(indices(r@[k]@)[0] == f);
                        }
                    }
                    if p < r@.len() {
                        assert(r@[p as int]@.len() > 0);
                        let f = r@[p as int]@[0] as int;
                        assert(v[f] == bs@[f]@);
                        assert(v[i as int] == bs@[i as int]@);
                        assert(!key_lt(key_of(v, f), key));
                        lemma_key_order(key_of(v, r@[p as int]@[0] as int), key, key);
                        assert forall|k: int| p <= k < r@.len() implies key_lt(key, key_of(v, #[trigger] r@[k]@[0] as int)) by {
                            if k > p {
                                lemma_key_order(key, key_of(v, r@[p as int]@[0] as int), key_of(v, r@[k]@[0] as int));
                            }
                        }
                    }
                }
                let ghost old_r = r@;
                r.insert(p, g);
                proof {
                    assert forall|k: int| 0 <= k < r@.len() implies #[trigger] r@[k]@.len() > 0 && r@[k]@[0] < i + 1
                        && indices(r@[k]@) == group(v, key_of(v, r@[k]@[0] as int)) by {
                        if k < p {
                            assert(r@[k] == old_r[k]);
                        } else if k > p {
                            assert(r@[k] == old_r[k - 1]);
                        }
                    }
                    assert forall|a: int, b: int| 0 <= a < b < r@.len() implies key_lt(
                        key_of(v, #[trigger] r@[a]@[0] as int),
                        key_of(v, #[trigger] r@[b]@[0] as int),
                    ) by {
                        if a < p && b < p {
                            assert(r@[a] == old_r[a] && r@[b] == old_r[b]);
                        } else if a < p && b == p {
                            assert(r@[a] == old_r[a]);
                        } else if a < p && b > p {
                            assert(r@[a] == old_r[a] && r@[b] == old_r[b - 1]);
                            lemma_key_order(key_of(v, old_r[a]@[0] as int), key, key_of(v, old_r[b - 1]@[0] as int));
                        } else if a == p {
                            assert(r@[b] == old_r[b - 1]);
                        } else {
                            assert(r@[a] == old_r[a - 1] && r@[b] == old_r[b - 1]);
                        }
                    }
                    assert forall|j: int| 0 <= j < i + 1 && #[trigger] is_latest(v, j) implies exists|k: int| 0 <= k < r@.len()
                        && key_of(v, #[trigger] r@[k]@[0] as int) == key_of(v, j) by {
                        if j == i {
                            assert(key_of(v, r@[p as int]@[0] as int) == key_of(v, j));
                        } else {
                            let k = choose|k: int| 0 <= k < old_r.len() && key_of(v, #[trigger] old_r[k]@[0] as int) == key_of(v, j);
                            if k < p {
                                assert(r@[k] == old_r[k]);
                            } else {
                                assert(r@[k + 1] == old_r[k]);
                            }
                        }
                    }
                }
            } else {
                proof {
                    let j = choose|j: int| 0 <= j < i && #[trigger] in_group(v, key_of(v, i as int), j);
                    assert(is_latest(v, j));
                }
            }
        }
        i += 1;
    }
    r
}

/// Speed keys in ascending order.
pub fn sort_keys(v: &Vec<i64>) -> (r: Vec<i64>)
    ensures
        r@ == v@.sort_by(|a: i64, b: i64| a <= b),
        r@.len() == v@.len(),
{
    let ghost leq = |a: i64, b: i64| a <= b;
    let mut r: Vec<i64> = Vec::new();
    let mut i: usize = 0;
    broadcast use vstd::seq_lib::group_to_multiset_ensures;
    assert(v@.take(0) == Seq::<i64>::empty());
    while i < v.len()
        invariant
            i <= v.len(),
            leq == (|a: i64, b: i64| a <= b),
            r@.len() == i,
            sorted_by(r@, leq),
            r@.to_multiset() == v@.take(i as int).to_multiset(),
        decreases v.len() - i,
    {
        let x = v[i];
        let mut p: usize = 0;
        while p < r.len() && r[p] <= x
            invariant
                p <= r@.len(),
                leq == (|a: i64, b: i64| a <= b),
                sorted_by(r@, leq),
                forall|k: int| 0 <= k < p ==> r@[k] <= x,
            decreases r@.len() - p,
        {
            p += 1;
        }
        let ghost old_r = r@;
        r.insert(p, x);
        proof {
            assert(v@.take(i + 1) == v@.take(i as int).push(x));
            vstd::seq_lib::to_multiset_build(v@.take(i as int), x);
            vstd::seq_lib::to_multiset_insert(old_r, p as int, x);
            assert forall|a: int, b: int| 0 <= a < b < r@.len() implies #[trigger] leq(r@[a], r@[b]) by {
                if b < p {
                    assert(leq(old_r[a], old_r[b]));
                } else if b == p {
                    assert(r@[a] == old_r[a]);
                    assert(r@[b] == x);
                } else if a < p {
                    assert(leq(old_r[a], old_r[b - 1]));
                } else if a == p {
                    if b - 1 > p {
                        assert(leq(old_r[p as int], old_r[b - 1]));
                    }
                } else {
                    assert(leq(old_r[a - 1], old_r[b - 1]));
                }
            }
        }
        i += 1;
    }
    proof {
        assert(v@.take(v@.len() as int) == v@);
        assert(total_ordering(leq));
        v@.lemma_sort_by_ensures(leq);
        vstd::seq_lib::lemma_sorted_unique(r@, v@.sort_by(leq), leq);
    }
    r
}

} // verus!
