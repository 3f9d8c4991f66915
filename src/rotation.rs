//! The rotation under a fixed availability: it cycles through exactly the
//! available screens, in index order, one dwell each.
use vstd::prelude::*;
use vstd::arithmetic::div_mod::{
    lemma_add_mod_noop_right,
    lemma_fundamental_div_mod,
    lemma_fundamental_div_mod_converse,
    lemma_mod_pos_bound,
    lemma_small_mod,
};
use crate::schedule::{
    first_available_after,
    lemma_next_screen,
    next_screen,
    run_ticks,
    shown_at,
    some_available,
    ScreenScheduler,
};

verus! {

/// The screen reached from `x` after `i` moves of the rotation.
pub open spec fn hop_iter(avail: Seq<bool>, x: int, i: nat) -> int
    decreases i,
{
    if i == 0 {
        x
    } else {
        next_screen(avail, hop_iter(avail, x, (i - 1) as nat))
    }
}

/// Number of available screens among positions `lo .. hi`.
pub open spec fn count_available(avail: Seq<bool>, lo: int, hi: int) -> nat
    decreases hi - lo,
{
    if hi <= lo {
        0
    } else {
        count_available(avail, lo, hi - 1) + if avail[hi - 1] {
            1nat
        } else {
            0nat
        }
    }
}

/// Number of available screens before position `x`.
pub open spec fn rank(avail: Seq<bool>, x: int) -> nat {
    count_available(avail, 0, x)
}

proof fn lemma_count_split(avail: Seq<bool>, lo: int, mid: int, hi: int)
    requires
        lo <= mid <= hi,
    ensures
        count_available(avail, lo, hi) == count_available(avail, lo, mid) + count_available(
            avail,
            mid,
            hi,
        ),
    decreases hi - mid,
{
    if hi > mid {
        lemma_count_split(avail, lo, mid, hi - 1);
    }
}

proof fn lemma_count_zero(avail: Seq<bool>, lo: int, hi: int)
    requires
        forall|p: int| lo <= p < hi ==> !#[trigger] avail[p],
    ensures
        count_available(avail, lo, hi) == 0,
    decreases hi - lo,
{
    if hi > lo {
        lemma_count_zero(avail, lo, hi - 1);
    }
}

/// An available screen has fewer available screens before it than there
/// are in all; of two available screens, the later has more before it.
proof fn lemma_rank_facts(avail: Seq<bool>, x: int)
    requires
        0 <= x < avail.len(),
        avail[x],
    ensures
        rank(avail, x) < count_available(avail, 0, avail.len() as int),
        forall|y: int|
            x < y < avail.len() ==> rank(avail, x) < #[trigger] rank(avail, y),
{
    let n = avail.len() as int;
    lemma_count_split(avail, 0, x, n);
    lemma_count_split(avail, x, x + 1, n);
    assert(count_available(avail, x, x) == 0);
    assert(count_available(avail, x, x + 1) == 1);
    assert forall|y: int| x < y < avail.len() implies rank(avail, x) < #[trigger] rank(avail, y) by {
        lemma_count_split(avail, 0, x, y);
        lemma_count_split(avail, x, x + 1, y);
    }
}

proof fn lemma_rank_injective(avail: Seq<bool>, x: int, y: int)
    requires
        0 <= x < avail.len(),
        0 <= y < avail.len(),
        avail[x],
        avail[y],
        rank(avail, x) == rank(avail, y),
    ensures
        x == y,
{
    lemma_rank_facts(avail, x);
    lemma_rank_facts(avail, y);
}

/// Facts on one move of the rotation from an available screen.
proof fn lemma_next_facts(avail: Seq<bool>, x: int) -> (k: int)
    requires
        0 <= x < avail.len(),
        avail[x],
    ensures
        first_available_after(avail, x, next_screen(avail, x), k),
        0 <= next_screen(avail, x) < avail.len(),
{
    let n = avail.len() as int;
    assert(some_available(avail));
    lemma_next_screen(avail, x);
    let k = choose|k: int| #[trigger] first_available_after(avail, x, next_screen(avail, x), k);
    k
}

/// One move takes an available screen to the one whose rank is next,
/// cyclically.
proof fn lemma_next_rank(avail: Seq<bool>, x: int)
    requires
        0 <= x < avail.len(),
        avail[x],
    ensures
        0 <= next_screen(avail, x) < avail.len(),
        avail[next_screen(avail, x)],
        rank(avail, next_screen(avail, x)) == (rank(avail, x) as int + 1) % (count_available(
            avail,
            0,
            avail.len() as int,
        ) as int),
{
    let n = avail.len() as int;
    let m = count_available(avail, 0, n) as int;
    let k = lemma_next_facts(avail, x);
    let y = next_screen(avail, x);
    lemma_rank_facts(avail, x);
    if x + k < n {
        lemma_small_mod((x + k) as nat, n as nat);
        assert forall|p: int| x + 1 <= p < y implies !#[trigger] avail[p] by {
            lemma_small_mod(p as nat, n as nat);
            assert(avail[(x + (p - x)) % n] == avail[p]);
        }
        lemma_count_zero(avail, x + 1, y);
        lemma_count_split(avail, 0, x, y);
        lemma_count_split(avail, x, x + 1, y);
        assert(count_available(avail, x, x) == 0);
    assert(count_available(avail, x, x + 1) == 1);
        lemma_rank_facts(avail, y);
        lemma_small_mod((rank(avail, x) + 1) as nat, m as nat);
    } else {
        lemma_fundamental_div_mod_converse(x + k, n, 1, x + k - n);
        assert forall|p: int| x + 1 <= p < n implies !#[trigger] avail[p] by {
            lemma_small_mod(p as nat, n as nat);
            assert(avail[(x + (p - x)) % n] == avail[p]);
        }
        assert forall|p: int| 0 <= p < y implies !#[trigger] avail[p] by {
            lemma_fundamental_div_mod_converse(x + (p + n - x), n, 1, p);
            assert(avail[(x + (p + n - x)) % n] == avail[p]);
        }
        lemma_count_zero(avail, x + 1, n);
        lemma_count_zero(avail, 0, y);
        lemma_count_split(avail, 0, x, n);
        lemma_count_split(avail, x, x + 1, n);
        assert(count_available(avail, x, x) == 0);
    assert(count_available(avail, x, x + 1) == 1);
        lemma_fundamental_div_mod_converse(m, m, 1, 0);
    }
}

proof fn lemma_hop_rank(avail: Seq<bool>, a: int, i: nat)
    requires
        0 <= a < avail.len(),
        avail[a],
    ensures
        0 <= hop_iter(avail, a, i) < avail.len(),
        avail[hop_iter(avail, a, i)],
        rank(avail, hop_iter(avail, a, i)) == (rank(avail, a) as int + i) % (count_available(
            avail,
            0,
            avail.len() as int,
        ) as int),
    decreases i,
{
    let m = count_available(avail, 0, avail.len() as int) as int;
    lemma_rank_facts(avail, a);
    if i == 0 {
        lemma_small_mod(rank(avail, a), m as nat);
    } else {
        lemma_hop_rank(avail, a, (i - 1) as nat);
        let h = hop_iter(avail, a, (i - 1) as nat);
        lemma_next_rank(avail, h);
        lemma_add_mod_noop_right(1, rank(avail, a) + i - 1, m);
    }
}

proof fn lemma_mod_below_twice(v: int, m: int)
    requires
        0 <= v < 2 * m,
    ensures
        v % m == (if v < m { v } else { v - m }),
{
    if v < m {
        lemma_small_mod(v as nat, m as nat);
    } else {
        lemma_fundamental_div_mod_converse(v, m, 1, v - m);
    }
}

/// With the availability fixed and `m` screens available, the rotation
/// started on an available screen `a` moves through `m` distinct screens,
/// all available, reaches every available screen on the way, in cyclic index
/// order, and is back on `a` after `m` moves.
pub proof fn law_cycle_of_available(avail: Seq<bool>, a: int)
    requires
        0 <= a < avail.len(),
        avail[a],
    ensures
        count_available(avail, 0, avail.len() as int) >= 1,
        hop_iter(avail, a, count_available(avail, 0, avail.len() as int)) == a,
        forall|i: nat|
            i < count_available(avail, 0, avail.len() as int) ==> #[trigger] avail[hop_iter(
                avail,
                a,
                i,
            )],
        forall|i: nat, j: nat|
            i < j < count_available(avail, 0, avail.len() as int) ==> #[trigger] hop_iter(
                avail,
                a,
                i,
            ) != #[trigger] hop_iter(avail, a, j),
        forall|y: int|
            0 <= y < avail.len() && #[trigger] avail[y] ==> exists|i: nat|
                i < count_available(avail, 0, avail.len() as int) && #[trigger] hop_iter(avail, a, i)
                    == y,
{
    let m = count_available(avail, 0, avail.len() as int);
    let r = rank(avail, a) as int;
    lemma_rank_facts(avail, a);
    assert forall|i: nat| i < m implies #[trigger] avail[hop_iter(avail, a, i)] by {
        lemma_hop_rank(avail, a, i);
    }
    assert forall|i: nat, j: nat| i < j < m implies #[trigger] hop_iter(avail, a, i)
        != #[trigger] hop_iter(avail, a, j) by {
        lemma_hop_rank(avail, a, i);
        lemma_hop_rank(avail, a, j);
        lemma_mod_below_twice(r + i, m as int);
        lemma_mod_below_twice(r + j, m as int);
    }
    assert forall|y: int| 0 <= y < avail.len() && #[trigger] avail[y] implies exists|i: nat|
        i < m && #[trigger] hop_iter(avail, a, i) == y by {
        lemma_rank_facts(avail, y);
        let ry = rank(avail, y) as int;
        let i: nat = (if ry >= r { ry - r } else { ry - r + m }) as nat;
        lemma_hop_rank(avail, a, i);
        lemma_mod_below_twice(r + i, m as int);
        lemma_rank_injective(avail, hop_iter(avail, a, i), y);
    }
    lemma_hop_rank(avail, a, m);
    lemma_fundamental_div_mod_converse(r + m, m as int, 1, r);
    lemma_rank_injective(avail, hop_iter(avail, a, m), a);
}

proof fn lemma_timing(s: ScreenScheduler, avail: Seq<bool>, t: nat)
    requires
        s.wf(),
        s.dwell >= 1,
        s.ticks_on_current_screen == 0,
        avail.len() == s.screen_count,
        avail[s.active_screen_index as int],
    ensures
        run_ticks(s, avail, t + 1) == (ScreenScheduler {
            active_screen_index: hop_iter(
                avail,
                s.active_screen_index as int,
                ((t as int) / (s.dwell as int)) as nat,
            ) as usize,
            ticks_on_current_screen: ((t as int) % (s.dwell as int) + 1) as u32,
            ..s
        }),
    decreases t,
{
    let d = s.dwell as int;
    let a = s.active_screen_index as int;
    if t == 0 {
        assert(run_ticks(s, avail, 0) == s);
        lemma_fundamental_div_mod_converse(0, d, 0, 0);
    } else {
        let p = (t - 1) as nat;
        lemma_timing(s, avail, p);
        lemma_fundamental_div_mod(p as int, d);
        lemma_mod_pos_bound(p as int, d);
        let q = (p as int) / d;
        let r = (p as int) % d;
        lemma_hop_rank(avail, a, q as nat);
        if r + 1 >= d {
            assert((q + 1) * d == d * q + d) by (nonlinear_arith);
            lemma_fundamental_div_mod_converse(t as int, d, q + 1, 0);
            lemma_next_rank(avail, hop_iter(avail, a, q as nat));
            assert(hop_iter(avail, a, (q + 1) as nat) == next_screen(
                avail,
                hop_iter(avail, a, q as nat),
            ));
        } else {
            lemma_fundamental_div_mod_converse(t as int, d, q, r + 1);
        }
    }
}

/// With the availability fixed, a rotation with dwell `d` started fresh on
/// an available screen shows, at tick `t`, the screen reached after `t / d`
/// moves: each screen of the cycle above is shown for one block of `d`
/// ticks, so a full cycle takes `d` ticks per available screen, and the
/// tick after it is back on the starting screen.
pub proof fn law_rotation_timing(s: ScreenScheduler, avail: Seq<bool>)
    requires
        s.wf(),
        s.dwell >= 1,
        s.ticks_on_current_screen == 0,
        avail.len() == s.screen_count,
        avail[s.active_screen_index as int],
    ensures
        forall|t: nat|
            #[trigger] shown_at(s, avail, t) == hop_iter(
                avail,
                s.active_screen_index as int,
                ((t as int) / (s.dwell as int)) as nat,
            ),
        shown_at(s, avail, (count_available(avail, 0, avail.len() as int) * s.dwell) as nat)
            == s.active_screen_index,
{
    let a = s.active_screen_index as int;
    let d = s.dwell as int;
    assert forall|t: nat| #[trigger] shown_at(s, avail, t) == hop_iter(
        avail,
        a,
        ((t as int) / d) as nat,
    ) by {
        lemma_timing(s, avail, t);
        lemma_hop_rank(avail, a, ((t as int) / d) as nat);
    }
    let m = count_available(avail, 0, avail.len() as int) as int;
    assert(m * d >= 0) by (nonlinear_arith)
        requires
            m >= 0,
            d >= 1,
    ;
    lemma_fundamental_div_mod_converse(m * d, d, m, 0);
    law_cycle_of_available(avail, a);
}

} // verus!
