//! Scoring of a selection of dice under the classic rules: three of a kind
//! scores 1000 for ones and a hundred times the face otherwise; a single one
//! scores 100 and a single five scores 50.
use crate::dice::{face_of, lemma_face_of, RollResult};
use vstd::prelude::*;

verus! {

/// How many dice of `s` show the face `v`.
pub open spec fn face_count(s: Seq<RollResult>, v: u8) -> nat
    decreases s.len(),
{
    if s.len() == 0 {
        0
    } else {
        face_count(s.drop_last(), v) + if s.last()@ == v {
            1nat
        } else {
            0nat
        }
    }
}

/// Points for three dice of face `f`.
pub open spec fn triplet_value(f: u8) -> nat {
    if f == 1 {
        1000
    } else {
        (f as nat) * 100
    }
}

/// Points of the triplets that faces 1 to `n` form in `s`.
pub open spec fn triplets_upto(s: Seq<RollResult>, n: u8) -> nat
    decreases n,
{
    if n == 0 {
        0
    } else {
        triplets_upto(s, (n - 1) as u8) + (face_count(s, n) / 3) * triplet_value(n)
    }
}

/// Points of all triplets in `s`.
pub open spec fn triplets_score(s: Seq<RollResult>) -> nat {
    triplets_upto(s, 6)
}

/// Points of `s`: every triplet, then each single one and five left over.
pub open spec fn score_of(s: Seq<RollResult>) -> nat {
    triplets_score(s) + (face_count(s, 1) % 3) * 100 + (face_count(s, 5) % 3) * 50
}

/// How many dice of face `v` no combination of `s` takes up.
pub open spec fn leftover_count(s: Seq<RollResult>, v: u8) -> nat {
    if v == 1 || v == 5 {
        0
    } else if 1 <= v <= 6 {
        face_count(s, v) % 3
    } else {
        face_count(s, v)
    }
}

/// `s` is not empty and splits into combinations with no die left over.
pub open spec fn is_scoring(s: Seq<RollResult>) -> bool {
    s.len() > 0 && forall|v: u8| #[trigger] leftover_count(s, v) == 0
}

/// `s` without its first `k` dice of face `t`; the other dice keep their order.
pub open spec fn remove_first(s: Seq<RollResult>, t: u8, k: nat) -> Seq<RollResult>
    decreases s.len(),
{
    if s.len() == 0 {
        s
    } else if s.last()@ == t && face_count(s.drop_last(), t) < k {
        remove_first(s.drop_last(), t, k)
    } else {
        remove_first(s.drop_last(), t, k).push(s.last())
    }
}

/// `s` after taking out, face by face from 1 to `n`, the first dice of the
/// face that make up whole triplets.
pub open spec fn strip_triplets(s: Seq<RollResult>, n: u8) -> Seq<RollResult>
    decreases n,
{
    if n == 0 {
        s
    } else {
        remove_first(strip_triplets(s, (n - 1) as u8), n, 3 * (face_count(s, n) / 3))
    }
}

/// The dice of `s` that no combination takes up, in their order: what is left
/// once the triplets are out and then every one and every five.
pub open spec fn leftover_of(s: Seq<RollResult>) -> Seq<RollResult> {
    remove_first(remove_first(strip_triplets(s, 6), 1, face_count(s, 1)), 5, face_count(s, 5))
}

/// Some die of `s` belongs to a combination.
pub open spec fn has_combination(s: Seq<RollResult>) -> bool {
    exists|v: u8| #[trigger] leftover_count(s, v) < face_count(s, v)
}

/// The largest selection that scoring accepts; its points fit in a `u32`.
pub const MAX_SCORED_DICE: usize = 10_000_000;

proof fn lemma_count_push(s: Seq<RollResult>, x: RollResult, v: u8)
    ensures
        face_count(s.push(x), v) == face_count(s, v) + if x@ == v {
            1nat
        } else {
            0nat
        },
{
    assert(s.push(x).drop_last() =~= s);
}

proof fn lemma_count_take(s: Seq<RollResult>, i: int, v: u8)
    requires
        0 <= i < s.len(),
    ensures
        face_count(s.take(i + 1), v) == face_count(s.take(i), v) + if s[i]@ == v {
            1nat
        } else {
            0nat
        },
{
    assert(s.take(i + 1).drop_last() =~= s.take(i));
}

proof fn lemma_count_le_len(s: Seq<RollResult>, v: u8)
    ensures
        face_count(s, v) <= s.len(),
    decreases s.len(),
{
    if s.len() > 0 {
        lemma_count_le_len(s.drop_last(), v);
    }
}

proof fn lemma_empty_iff_no_counts(s: Seq<RollResult>)
    ensures
        s.len() > 0 ==> face_count(s, s.last()@) > 0,
        s.len() == 0 ==> forall|v: u8| #[trigger] face_count(s, v) == 0,
{
}

proof fn lemma_remove_first_count(s: Seq<RollResult>, t: u8, k: nat, v: u8)
    ensures
        face_count(remove_first(s, t, k), v) == face_count(s, v) - if v != t {
            0
        } else if face_count(s, t) < k {
            face_count(s, t) as int
        } else {
            k as int
        },
    decreases s.len(),
{
    if s.len() > 0 {
        let p = s.drop_last();
        lemma_remove_first_count(p, t, k, v);
        lemma_count_push(remove_first(p, t, k), s.last(), v);
    }
}

proof fn lemma_remove_first_zero(s: Seq<RollResult>, t: u8)
    ensures
        remove_first(s, t, 0) == s,
    decreases s.len(),
{
    if s.len() > 0 {
        lemma_remove_first_zero(s.drop_last(), t);
        assert(s.drop_last().push(s.last()) =~= s);
    }
}

proof fn lemma_remove_first_compose(s: Seq<RollResult>, t: u8, a: nat, b: nat)
    ensures
        remove_first(remove_first(s, t, a), t, b) == remove_first(s, t, a + b),
    decreases s.len(),
{
    if s.len() > 0 {
        let p = s.drop_last();
        let x = s.last();
        lemma_remove_first_compose(p, t, a, b);
        lemma_remove_first_count(p, t, a, t);
        let q = remove_first(p, t, a);
        assert(q.push(x).drop_last() =~= q);
    }
}

proof fn lemma_remove_first_commute(s: Seq<RollResult>, t: u8, a: nat, u: u8, b: nat)
    requires
        t != u,
    ensures
        remove_first(remove_first(s, t, a), u, b) == remove_first(remove_first(s, u, b), t, a),
    decreases s.len(),
{
    if s.len() > 0 {
        let p = s.drop_last();
        let x = s.last();
        lemma_remove_first_commute(p, t, a, u, b);
        lemma_remove_first_count(p, t, a, u);
        lemma_remove_first_count(p, u, b, t);
        let q1 = remove_first(p, t, a);
        let q2 = remove_first(p, u, b);
        assert(q1.push(x).drop_last() =~= q1);
        assert(q2.push(x).drop_last() =~= q2);
    }
}

proof fn lemma_strip_count(s: Seq<RollResult>, n: u8, v: u8)
    requires
        n <= 6,
    ensures
        face_count(strip_triplets(s, n), v) == if 1 <= v <= n {
            face_count(s, v) % 3
        } else {
            face_count(s, v)
        },
    decreases n,
{
    if n > 0 {
        let m = (n - 1) as u8;
        lemma_strip_count(s, m, v);
        lemma_strip_count(s, m, n);
        lemma_remove_first_count(strip_triplets(s, m), n, 3 * (face_count(s, n) / 3), v);
    }
}

proof fn lemma_remove_first_all(s: Seq<RollResult>, t: u8, k1: nat, k2: nat)
    requires
        k1 >= face_count(s, t),
        k2 >= face_count(s, t),
    ensures
        remove_first(s, t, k1) == remove_first(s, t, k2),
    decreases s.len(),
{
    if s.len() > 0 {
        lemma_remove_first_all(s.drop_last(), t, k1, k2);
    }
}

proof fn lemma_strip_empty(s: Seq<RollResult>, n: u8)
    requires
        s.len() == 0,
    ensures
        strip_triplets(s, n).len() == 0,
    decreases n,
{
    if n > 0 {
        lemma_strip_empty(s, (n - 1) as u8);
    }
}

/// Faces after `g` with fewer than three dice take nothing out.
proof fn lemma_strip_skip(s: Seq<RollResult>, g: u8, f: u8)
    requires
        g < f <= 7,
        forall|h: u8| g < h < f ==> #[trigger] face_count(s, h) < 3,
    ensures
        strip_triplets(s, (f - 1) as u8) == strip_triplets(s, g),
    decreases f,
{
    if f - 1 > g {
        let m = (f - 1) as u8;
        lemma_strip_skip(s, g, m);
        assert(face_count(s, m) < 3);
        lemma_remove_first_zero(strip_triplets(s, (m - 1) as u8), m);
    }
}

/// Only faces 1 to `n` contribute to `triplets_upto`, each by its own count.
proof fn lemma_triplets_frame(s: Seq<RollResult>, t: Seq<RollResult>, n: u8)
    requires
        n <= 6,
        forall|v: u8| 1 <= v <= n ==> face_count(s, v) == face_count(t, v),
    ensures
        triplets_upto(s, n) == triplets_upto(t, n),
    decreases n,
{
    if n > 0 {
        lemma_triplets_frame(s, t, (n - 1) as u8);
    }
}

/// Taking three dice of face `f` away lowers the triplet points by that triplet.
proof fn lemma_triplets_remove(s: Seq<RollResult>, t: Seq<RollResult>, f: u8, n: u8)
    requires
        1 <= f <= n <= 6,
        face_count(s, f) == face_count(t, f) + 3,
        forall|v: u8| v != f ==> face_count(s, v) == face_count(t, v),
    ensures
        triplets_upto(s, n) == triplets_upto(t, n) + triplet_value(f),
    decreases n,
{
    if n > f {
        lemma_triplets_remove(s, t, f, (n - 1) as u8);
    } else {
        lemma_triplets_frame(s, t, (n - 1) as u8);
        let c = face_count(t, f) / 3;
        assert(face_count(s, f) / 3 == c + 1);
        assert((c + 1) * triplet_value(f) == c * triplet_value(f) + triplet_value(f))
            by (nonlinear_arith);
    }
}

proof fn lemma_triplets_zero(s: Seq<RollResult>, n: u8)
    requires
        n <= 6,
        forall|v: u8| 1 <= v <= n ==> face_count(s, v) < 3,
    ensures
        triplets_upto(s, n) == 0,
    decreases n,
{
    if n > 0 {
        lemma_triplets_zero(s, (n - 1) as u8);
    }
}

/// Scoring does not depend on the order of the dice: two selections that hold
/// each face equally often are both scoring or both not, have the same points
/// and leave the same dice over.
pub proof fn lemma_score_order_independent(a: Seq<RollResult>, b: Seq<RollResult>)
    requires
        forall|v: u8| #[trigger] face_count(a, v) == face_count(b, v),
    ensures
        is_scoring(a) == is_scoring(b),
        score_of(a) == score_of(b),
        has_combination(a) == has_combination(b),
        forall|v: u8| #[trigger] leftover_count(a, v) == leftover_count(b, v),
{
    lemma_triplets_frame(a, b, 6);
    lemma_empty_iff_no_counts(a);
    lemma_empty_iff_no_counts(b);
    if a.len() > 0 {
        lemma_count_le_len(b, a.last()@);
        assert(face_count(b, a.last()@) > 0);
    }
    if b.len() > 0 {
        lemma_count_le_len(a, b.last()@);
        assert(face_count(a, b.last()@) > 0);
    }
    assert forall|v: u8| #[trigger] leftover_count(a, v) == leftover_count(b, v) by {
        assert(face_count(a, v) == face_count(b, v));
    }
    if is_scoring(a) {
        assert(b.len() > 0);
        assert forall|v: u8| #[trigger] leftover_count(b, v) == 0 by {
            assert(leftover_count(a, v) == 0);
        }
    }
    if is_scoring(b) {
        assert(a.len() > 0);
        assert forall|v: u8| #[trigger] leftover_count(a, v) == 0 by {
            assert(leftover_count(b, v) == 0);
        }
    }
    if has_combination(a) {
        let v = choose|v: u8| #[trigger] leftover_count(a, v) < face_count(a, v);
        assert(leftover_count(b, v) < face_count(b, v));
    }
    if has_combination(b) {
        let v = choose|v: u8| #[trigger] leftover_count(b, v) < face_count(b, v);
        assert(leftover_count(a, v) < face_count(a, v));
    }
}

proof fn lemma_count_multiset(s: Seq<RollResult>, v: u8)
    ensures
        face_count(s, v) == s.to_multiset().count(face_of(v)),
    decreases s.len(),
{
    if s.len() == 0 {
        vstd::seq_lib::to_multiset_contains(s, face_of(v));
    } else {
        let p = s.drop_last();
        lemma_count_multiset(p, v);
        assert(p.push(s.last()) =~= s);
        vstd::seq_lib::to_multiset_build(p, s.last());
        lemma_face_of(s.last(), v);
    }
}

proof fn lemma_leftover_of_count(s: Seq<RollResult>, v: u8)
    ensures
        face_count(leftover_of(s), v) == leftover_count(s, v),
{
    let st = strip_triplets(s, 6);
    lemma_strip_count(s, 6, v);
    lemma_strip_count(s, 6, 1);
    lemma_strip_count(s, 6, 5);
    lemma_remove_first_count(st, 1, face_count(s, 1), v);
    lemma_remove_first_count(st, 1, face_count(s, 1), 5);
    lemma_remove_first_count(remove_first(st, 1, face_count(s, 1)), 5, face_count(s, 5), v);
}

/// Scoring does not depend on the order of the dice: for two selections that
/// are permutations of each other (the same multiset of faces), both are
/// scoring or both are not, they have the same points, and the dice left
/// over are the same multiset.
pub proof fn lemma_score_permutation(a: Seq<RollResult>, b: Seq<RollResult>)
    requires
        a.to_multiset() == b.to_multiset(),
    ensures
        is_scoring(a) == is_scoring(b),
        score_of(a) == score_of(b),
        has_combination(a) == has_combination(b),
        leftover_of(a).to_multiset() == leftover_of(b).to_multiset(),
{
    assert forall|v: u8| #[trigger] face_count(a, v) == face_count(b, v) by {
        lemma_count_multiset(a, v);
        lemma_count_multiset(b, v);
    }
    lemma_score_order_independent(a, b);
    let la = leftover_of(a);
    let lb = leftover_of(b);
    assert forall|x: RollResult| la.to_multiset().count(x) == lb.to_multiset().count(x) by {
        lemma_face_of(x, x@);
        lemma_count_multiset(la, x@);
        lemma_count_multiset(lb, x@);
        lemma_leftover_of_count(a, x@);
        lemma_leftover_of_count(b, x@);
    }
    assert(la.to_multiset() =~= lb.to_multiset());
}

/// Takes the first `amount` dice of face `target` out of `roll`; `None` when
/// there are fewer than `amount` of them.
fn find_combination(roll: &Vec<RollResult>, target: RollResult, amount: usize) -> (r: Option<
    Vec<RollResult>,
>)
    ensures
        r is Some <==> face_count(roll@, target@) >= amount,
        r is Some ==> r->Some_0@.len() == roll@.len() - amount,
        r is Some ==> r->Some_0@ == remove_first(roll@, target@, amount as nat),
        r is Some ==> forall|v: u8|
            #[trigger] face_count(r->Some_0@, v) == face_count(roll@, v) - if v == target@ {
                amount as int
            } else {
                0
            },
{
    let mut rest: Vec<RollResult> = Vec::new();
    let mut found: usize = 0;
    let mut i: usize = 0;
    while i < roll.len()
        invariant
            i <= roll@.len(),
            found <= amount,
            found as nat == if face_count(roll@.take(i as int), target@) < amount {
                face_count(roll@.take(i as int), target@)
            } else {
                amount as nat
            },
            rest@.len() == i - found,
            rest@ == remove_first(roll@.take(i as int), target@, amount as nat),
            forall|v: u8|
                #[trigger] face_count(rest@, v) == face_count(roll@.take(i as int), v) - if v
                    == target@ {
                    found as int
                } else {
                    0
                },
        decreases roll@.len() - i,
    {
        let r = roll[i];
        proof {
            assert(roll@.take(i + 1).drop_last() =~= roll@.take(i as int));
            assert forall|v: u8| true implies #[trigger] face_count(roll@.take(i + 1), v)
                == face_count(roll@.take(i as int), v) + if roll@[i as int]@ == v {
                1nat
            } else {
                0nat
            } by {
                lemma_count_take(roll@, i as int, v);
            }
        }
        assert(roll@[i as int] == r);
        let same = r.value() == target.value();
        if same && found < amount {
            found = found + 1;
        } else {
            proof {
                assert forall|v: u8| true implies #[trigger] face_count(rest@.push(r), v)
                    == face_count(rest@, v) + if r@ == v {
                    1nat
                } else {
                    0nat
                } by {
                    lemma_count_push(rest@, r, v);
                }
            }
            rest.push(r);
        }
        i = i + 1;
    }
    assert(roll@.take(roll@.len() as int) =~= roll@);
    if found >= amount {
        Some(rest)
    } else {
        None
    }
}

/// Scores a selection of dice. Every die must belong to a combination: on
/// success the points are returned, otherwise the dice that no combination
/// takes up. An empty selection gives `Err` with no dice.
pub fn get_score(roll: Vec<RollResult>) -> (r: Result<u32, Vec<RollResult>>)
    requires
        roll@.len() <= MAX_SCORED_DICE,
    ensures
        r is Ok <==> is_scoring(roll@),
        r is Ok ==> r->Ok_0 == score_of(roll@),
        r is Err ==> forall|v: u8| #[trigger]
            face_count(r->Err_0@, v) == leftover_count(roll@, v),
        r is Err ==> r->Err_0@ == leftover_of(roll@),
        r is Err ==> r->Err_0@.len() <= roll@.len(),
        r is Err ==> (r->Err_0@.len() < roll@.len() <==> has_combination(roll@)),
        r is Ok ==> r->Ok_0 <= 400 * roll@.len(),
{
    let ghost s0 = roll@;
    if roll.len() == 0 {
        proof {
            lemma_empty_iff_no_counts(s0);
        }
        assert(!has_combination(s0));
        proof {
            lemma_strip_empty(s0, 6);
            assert(leftover_of(s0) =~= s0);
        }
        return Err(roll);
    }
    let mut roll = roll;
    let mut score: u32 = 0;
    let faces = RollResult::iter();

    // Take out triplets, always the lowest face first, until none is left.
    let ghost mut g: u8 = 0;
    let ghost mut a: nat = 0;
    proof {
        lemma_remove_first_zero(s0, 1);
    }
    let mut done = false;
    while !done
        invariant
            faces@.len() == 6,
            forall|i: int| 0 <= i < 6 ==> #[trigger] faces@[i]@ == i + 1,
            s0.len() <= MAX_SCORED_DICE,
            roll@.len() <= s0.len(),
            score + triplets_score(roll@) == triplets_score(s0),
            score <= 400 * (s0.len() - roll@.len()),
            roll@.len() == s0.len() ==> roll@ == s0,
            roll@.len() < s0.len() ==> has_combination(s0),
            forall|v: u8| #[trigger] face_count(roll@, v) <= face_count(s0, v),
            forall|v: u8| #[trigger] face_count(roll@, v) % 3 == face_count(s0, v) % 3,
            forall|v: u8| !(1 <= v <= 6) ==> #[trigger] face_count(roll@, v) == face_count(s0, v),
            done ==> forall|v: u8| 1 <= v <= 6 ==> #[trigger] face_count(roll@, v) < 3,
            g < 6,
            a % 3 == 0,
            a <= face_count(s0, (g + 1) as u8),
            roll@ == remove_first(strip_triplets(s0, g), (g + 1) as u8, a),
        decreases roll@.len() + if done {
            0int
        } else {
            1int
        },
    {
        let before = roll.len();
        let mut k: usize = 0;
        let mut found = false;
        while k < 6 && !found
            invariant
                faces@.len() == 6,
                forall|i: int| 0 <= i < 6 ==> #[trigger] faces@[i]@ == i + 1,
                k <= 6,
                s0.len() <= MAX_SCORED_DICE,
                before <= s0.len(),
                roll@.len() <= s0.len(),
                score + triplets_score(roll@) == triplets_score(s0),
                score <= 400 * (s0.len() - roll@.len()),
                roll@.len() == s0.len() ==> roll@ == s0,
                roll@.len() < s0.len() ==> has_combination(s0),
                forall|v: u8| #[trigger] face_count(roll@, v) <= face_count(s0, v),
                forall|v: u8| #[trigger] face_count(roll@, v) % 3 == face_count(s0, v) % 3,
                forall|v: u8|
                    !(1 <= v <= 6) ==> #[trigger] face_count(roll@, v) == face_count(s0, v),
                found ==> roll@.len() < before,
                !found ==> before == roll@.len(),
                !found ==> forall|v: u8| 1 <= v <= k ==> #[trigger] face_count(roll@, v) < 3,
                g < 6,
                a % 3 == 0,
                a <= face_count(s0, (g + 1) as u8),
                roll@ == remove_first(strip_triplets(s0, g), (g + 1) as u8, a),
            decreases 6 - k,
        {
            let face = faces[k];
            match find_combination(&roll, face, 3) {
                Some(rest) => {
                    let f = face.value();
                    let points: u32 = if f == 1 {
                        1000
                    } else {
                        f as u32 * 100
                    };
                    proof {
                        lemma_triplets_remove(roll@, rest@, f, 6);
                        assert(face_count(s0, f) >= 3);
                        assert(leftover_count(s0, f) < face_count(s0, f));
                        assert forall|v: u8| #[trigger] face_count(rest@, v) % 3 == face_count(
                            s0,
                            v,
                        ) % 3 by {
                            assert(face_count(roll@, v) % 3 == face_count(s0, v) % 3);
                        }
                        let cur = (g + 1) as u8;
                        let st = strip_triplets(s0, g);
                        lemma_remove_first_count(st, cur, a, f);
                        lemma_strip_count(s0, g, f);
                        if f == cur {
                            lemma_remove_first_compose(st, cur, a, 3);
                            a = a + 3;
                        } else {
                            lemma_remove_first_count(st, cur, a, cur);
                            lemma_strip_count(s0, g, cur);
                            assert(a == 3 * (face_count(s0, cur) / 3));
                            assert(roll@ == strip_triplets(s0, cur));
                            assert forall|h: u8| cur < h < f implies #[trigger] face_count(s0, h)
                                < 3 by {
                                lemma_strip_count(s0, cur, h);
                                assert(face_count(roll@, h) < 3);
                            }
                            lemma_strip_skip(s0, cur, f);
                            lemma_strip_count(s0, cur, f);
                            g = (f - 1) as u8;
                            a = 3;
                        }
                    }
                    score = score + points;
                    roll = rest;
                    found = true;
                },
                None => {},
            }
            k = k + 1;
        }
        if roll.len() == before {
            done = true;
        }
    }

    proof {
        let cur = (g + 1) as u8;
        let st = strip_triplets(s0, g);
        lemma_remove_first_count(st, cur, a, cur);
        lemma_strip_count(s0, g, cur);
        assert(a == 3 * (face_count(s0, cur) / 3));
        assert(roll@ == strip_triplets(s0, cur));
        assert forall|h: u8| cur < h < 7 implies #[trigger] face_count(s0, h) < 3 by {
            lemma_strip_count(s0, cur, h);
        }
        lemma_strip_skip(s0, cur, 7);
    }
    let ghost mid = roll@;
    assert(mid == strip_triplets(s0, 6));
    assert forall|v: u8| 1 <= v <= 6 implies #[trigger] face_count(mid, v) == face_count(s0, v)
        % 3 by {
        assert(face_count(mid, v) % 3 == face_count(s0, v) % 3);
    }
    proof {
        lemma_triplets_zero(mid, 6);
    }

    // Take out single ones and fives.
    let one = faces[0];
    let five = faces[4];
    let ghost mut x1: nat = 0;
    let ghost mut x5: nat = 0;
    proof {
        lemma_remove_first_zero(mid, 1);
        lemma_remove_first_zero(mid, 5);
    }
    let mut done = false;
    while !done
        invariant
            one@ == 1,
            five@ == 5,
            s0.len() <= MAX_SCORED_DICE,
            roll@.len() <= s0.len(),
            forall|v: u8| v != 1 && v != 5 ==> #[trigger] face_count(roll@, v) == face_count(mid, v),
            face_count(roll@, 1) <= face_count(mid, 1),
            face_count(roll@, 5) <= face_count(mid, 5),
            score == triplets_score(s0) + (face_count(mid, 1) - face_count(roll@, 1)) * 100 + (
            face_count(mid, 5) - face_count(roll@, 5)) * 50,
            score <= 400 * (s0.len() - roll@.len()),
            roll@.len() == s0.len() ==> roll@ == s0,
            roll@.len() < s0.len() ==> has_combination(s0),
            forall|v: u8| 1 <= v <= 6 ==> #[trigger] face_count(mid, v) == face_count(s0, v) % 3,
            done ==> face_count(roll@, 1) == 0 && face_count(roll@, 5) == 0,
            roll@ == remove_first(remove_first(mid, 1, x1), 5, x5),
            x1 == face_count(mid, 1) - face_count(roll@, 1),
            x5 == face_count(mid, 5) - face_count(roll@, 5),
        decreases roll@.len() + if done {
            0int
        } else {
            1int
        },
    {
        let before = roll.len();
        match find_combination(&roll, one, 1) {
            Some(rest) => {
                assert(leftover_count(s0, 1) < face_count(s0, 1));
                proof {
                    lemma_remove_first_commute(remove_first(mid, 1, x1), 1, 1, 5, x5);
                    lemma_remove_first_compose(mid, 1, x1, 1);
                    x1 = x1 + 1;
                }
                score = score + 100;
                roll = rest;
            },
            None => {},
        }
        match find_combination(&roll, five, 1) {
            Some(rest) => {
                assert(leftover_count(s0, 5) < face_count(s0, 5));
                proof {
                    lemma_remove_first_compose(remove_first(mid, 1, x1), 5, x5, 1);
                    x5 = x5 + 1;
                }
                score = score + 50;
                roll = rest;
            },
            None => {},
        }
        if roll.len() == before {
            done = true;
        }
    }

    proof {
        lemma_remove_first_all(mid, 1, x1, face_count(s0, 1));
        let y = remove_first(mid, 1, face_count(s0, 1));
        lemma_remove_first_count(mid, 1, face_count(s0, 1), 5);
        lemma_remove_first_all(y, 5, x5, face_count(s0, 5));
        assert(roll@ == leftover_of(s0));
        lemma_empty_iff_no_counts(roll@);
        assert forall|v: u8| #[trigger] face_count(roll@, v) == leftover_count(s0, v) by {
            if v != 1 && v != 5 && 1 <= v <= 6 {
                assert(face_count(mid, v) == face_count(s0, v) % 3);
            }
        }
    }
    if roll.len() == 0 {
        assert forall|v: u8| #[trigger] leftover_count(s0, v) == 0 by {
            assert(face_count(roll@, v) == leftover_count(s0, v));
        }
        Ok(score)
    } else {
        proof {
            assert(leftover_count(s0, roll@.last()@) > 0);
            if roll@.len() == s0.len() {
                assert forall|v: u8| !(#[trigger] leftover_count(s0, v) < face_count(s0, v)) by {
                    assert(face_count(roll@, v) == leftover_count(s0, v));
                }
            }
        }
        Err(roll)
    }
}

} // verus!
