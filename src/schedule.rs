//! Screen rotation: which screen the display shows at each tick.
use vstd::prelude::*;
use vstd::arithmetic::div_mod::{
    lemma_add_mod_noop_right,
    lemma_fundamental_div_mod,
    lemma_fundamental_div_mod_converse,
    lemma_mod_pos_bound,
    lemma_small_mod,
};

verus! {

/// Ticks a screen stays on before the rotation moves on.
pub const DEFAULT_DWELL: u32 = 6;

/// The screen shown when nothing else can be.
pub const DEFAULT_SCREEN: usize = 0;

/// The screens of the rotation, in rotation order.
#[derive(Clone, Copy, Debug, PartialEq, Eq)]
pub enum Screen {
    SystemLoad,
    GpuLoad,
    PowerAndNetwork,
    NowPlaying,
}

pub const SCREEN_COUNT: usize = 4;

pub open spec fn screen_index(s: Screen) -> usize {
    match s {
        Screen::SystemLoad => 0,
        Screen::GpuLoad => 1,
        Screen::PowerAndNetwork => 2,
        Screen::NowPlaying => 3,
    }
}

impl Screen {
    /// The screen at a position of the rotation.
    pub fn from_index(i: usize) -> (r: Screen)
        requires
            i < SCREEN_COUNT,
        ensures
            screen_index(r) == i,
    {
        if i == 0 {
            Screen::SystemLoad
        } else if i == 1 {
            Screen::GpuLoad
        } else if i == 2 {
            Screen::PowerAndNetwork
        } else {
            Screen::NowPlaying
        }
    }
}

/// Which screens can become active: the GPU screen needs a GPU, the media
/// screen an active media session; the others always can.
pub fn availability(gpu_present: bool, media_active: bool) -> (r: Vec<bool>)
    ensures
        r@ == seq![true, gpu_present, true, media_active],
{
    let r = vec![true, gpu_present, true, media_active];
    assert(r@ =~= seq![true, gpu_present, true, media_active]);
    r
}

/// The position after `i` in a rotation of `n` screens.
pub open spec fn succ(i: int, n: int) -> int {
    if i + 1 >= n {
        0
    } else {
        i + 1
    }
}

/// Looks at up to `left` positions after `i`, in cyclic order, for one whose
/// screen is available.
pub open spec fn search(avail: Seq<bool>, i: int, left: nat) -> Option<int>
    decreases left,
{
    if left == 0 {
        None
    } else {
        let j = succ(i, avail.len() as int);
        if avail[j] {
            Some(j)
        } else {
            search(avail, j, (left - 1) as nat)
        }
    }
}

/// The screen the rotation moves to from `from`: the next available one in
/// cyclic order (possibly `from` itself), or the default screen when none is.
pub open spec fn next_screen(avail: Seq<bool>, from: int) -> int {
    match search(avail, from, avail.len()) {
        Some(j) => j,
        None => DEFAULT_SCREEN as int,
    }
}

/// Rotation state: the active screen and how long it has been shown.
#[derive(Clone, Copy, Debug, PartialEq, Eq)]
pub struct ScreenScheduler {
    pub active_screen_index: usize,
    pub ticks_on_current_screen: u32,
    /// Ticks each screen is shown before the rotation moves on.
    pub dwell: u32,
    pub screen_count: usize,
}

/// The state after one tick under the given availability.
pub open spec fn tick_spec(s: ScreenScheduler, avail: Seq<bool>) -> ScreenScheduler {
    if s.ticks_on_current_screen >= s.dwell {
        ScreenScheduler {
            active_screen_index: next_screen(avail, s.active_screen_index as int) as usize,
            ticks_on_current_screen: 1,
            ..s
        }
    } else {
        ScreenScheduler { ticks_on_current_screen: (s.ticks_on_current_screen + 1) as u32, ..s }
    }
}

/// The state after `t` ticks under unchanging availability.
pub open spec fn run_ticks(s: ScreenScheduler, avail: Seq<bool>, t: nat) -> ScreenScheduler
    decreases t,
{
    if t == 0 {
        s
    } else {
        tick_spec(run_ticks(s, avail, (t - 1) as nat), avail)
    }
}

/// The screen shown at tick `t` (counting from zero).
pub open spec fn shown_at(s: ScreenScheduler, avail: Seq<bool>, t: nat) -> int {
    run_ticks(s, avail, t + 1).active_screen_index as int
}

pub open spec fn all_available(avail: Seq<bool>) -> bool {
    forall|i: int| 0 <= i < avail.len() ==> #[trigger] avail[i]
}

proof fn lemma_succ_mod(x: int, n: int)
    requires
        x >= 0,
        n >= 1,
    ensures
        succ(x % n, n) == (x + 1) % n,
{
    lemma_mod_pos_bound(x, n);
    lemma_add_mod_noop_right(1, x, n);
    let r = x % n;
    if r + 1 >= n {
        lemma_fundamental_div_mod_converse(r + 1, n, 1, 0);
    } else {
        lemma_small_mod((r + 1) as nat, n as nat);
    }
}

proof fn lemma_rotation_state(s: ScreenScheduler, avail: Seq<bool>, t: nat)
    requires
        s.wf(),
        s.dwell >= 1,
        s.ticks_on_current_screen == 0,
        avail.len() == s.screen_count,
        all_available(avail),
    ensures
        run_ticks(s, avail, t + 1) == (ScreenScheduler {
            active_screen_index: ((s.active_screen_index + (t as int) / (s.dwell as int)) % (
            s.screen_count as int)) as usize,
            ticks_on_current_screen: ((t as int) % (s.dwell as int) + 1) as u32,
            ..s
        }),
    decreases t,
{
    let n = s.screen_count as int;
    let d = s.dwell as int;
    let a = s.active_screen_index as int;
    if t == 0 {
        assert(run_ticks(s, avail, 0) == s);
        lemma_fundamental_div_mod_converse(0, d, 0, 0);
        lemma_small_mod(a as nat, n as nat);
    } else {
        let p = (t - 1) as nat;
        lemma_rotation_state(s, avail, p);
        lemma_fundamental_div_mod(p as int, d);
        lemma_mod_pos_bound(p as int, d);
        let q = (p as int) / d;
        let r = (p as int) % d;
        let x = (a + q) % n;
        lemma_mod_pos_bound(a + q, n);
        if r + 1 >= d {
            assert((q + 1) * d == d * q + d) by (nonlinear_arith);
            lemma_fundamental_div_mod_converse(t as int, d, q + 1, 0);
            assert(avail[succ(x, n)]);
            assert(search(avail, x, avail.len()) == Some(succ(x, n)));
            lemma_succ_mod(a + q, n);
            assert(a + q + 1 == a + (q + 1));
        } else {
            lemma_fundamental_div_mod_converse(t as int, d, q, r + 1);
        }
    }
}

/// With every screen available, a rotation of `n` screens with dwell `d`,
/// started fresh on screen `a`, shows each screen for `d` ticks in cyclic
/// order: over `n * d` ticks it shows `a`, `a + 1`, ... (wrapping), each
/// exactly once as a block, and the next tick is back on `a`.
pub proof fn law_full_rotation(s: ScreenScheduler, avail: Seq<bool>)
    requires
        s.wf(),
        s.dwell >= 1,
        s.ticks_on_current_screen == 0,
        avail.len() == s.screen_count,
        all_available(avail),
    ensures
        forall|t: nat|
            t < s.screen_count * s.dwell ==> #[trigger] shown_at(s, avail, t) == (
            s.active_screen_index + (t as int) / (s.dwell as int)) % (s.screen_count as int),
        shown_at(s, avail, (s.screen_count * s.dwell) as nat) == s.active_screen_index,
{
    let n = s.screen_count as int;
    let d = s.dwell as int;
    let a = s.active_screen_index as int;
    assert forall|t: nat| t < s.screen_count * s.dwell implies #[trigger] shown_at(s, avail, t) == (
    s.active_screen_index + (t as int) / (s.dwell as int)) % (s.screen_count as int) by {
        lemma_rotation_state(s, avail, t);
    }
    assert(n * d >= 0) by (nonlinear_arith)
        requires
            n >= 1,
            d >= 1,
    ;
    let end = (n * d) as nat;
    lemma_rotation_state(s, avail, end);
    lemma_fundamental_div_mod_converse(end as int, d, n, 0);
    lemma_fundamental_div_mod_converse(a + n, n, 1, a);
}

pub open spec fn some_available(avail: Seq<bool>) -> bool {
    exists|i: int| 0 <= i < avail.len() && #[trigger] avail[i]
}

/// `j` is the first available position after `from` in cyclic order, found
/// `k` steps ahead: every position passed over on the way is unavailable.
pub open spec fn first_available_after(avail: Seq<bool>, from: int, j: int, k: int) -> bool {
    let n = avail.len() as int;
    &&& 1 <= k <= n
    &&& j == (from + k) % n
    &&& avail[j]
    &&& forall|m: int| 1 <= m < k ==> !#[trigger] avail[(from + m) % n]
}

proof fn lemma_search_steps(avail: Seq<bool>, from: int, m: int, left: nat)
    requires
        avail.len() >= 1,
        0 <= from < avail.len(),
        m >= 0,
        m + left <= avail.len(),
        forall|jj: int| 1 <= jj <= m ==> !#[trigger] avail[(from + jj) % (avail.len() as int)],
    ensures
        search(avail, (from + m) % (avail.len() as int), left) is Some ==> exists|k: int|
            #[trigger] first_available_after(
                avail,
                from,
                search(avail, (from + m) % (avail.len() as int), left)->Some_0,
                k,
            ),
        search(avail, (from + m) % (avail.len() as int), left) is None ==> forall|jj: int|
            1 <= jj <= m + left ==> !#[trigger] avail[(from + jj) % (avail.len() as int)],
    decreases left,
{
    let n = avail.len() as int;
    if left > 0 {
        lemma_succ_mod(from + m, n);
        let j = (from + m + 1) % n;
        lemma_mod_pos_bound(from + m + 1, n);
        assert(search(avail, (from + m) % n, left) == if avail[j] {
            Some(j)
        } else {
            search(avail, j, (left - 1) as nat)
        });
        if avail[j] {
            assert(first_available_after(avail, from, j, m + 1));
            assert(search(avail, (from + m) % n, left)->Some_0 == j);
        } else {
            lemma_search_steps(avail, from, m + 1, (left - 1) as nat);
            assert((from + (m + 1)) % n == j);
            let r = search(avail, j, (left - 1) as nat);
            assert(search(avail, (from + m) % n, left) == r);
            if r is Some {
                let k = choose|k: int| #[trigger] first_available_after(avail, from, r->Some_0, k);
                assert(first_available_after(avail, from, r->Some_0, k));
            }
        }
    }
}

proof fn lemma_every_position_reached(n: int, from: int, i: int) -> (k: int)
    requires
        0 <= from < n,
        0 <= i < n,
    ensures
        1 <= k <= n,
        (from + k) % n == i,
{
    let k = if i > from { i - from } else { i - from + n };
    if i > from {
        lemma_small_mod(i as nat, n as nat);
    } else {
        lemma_fundamental_div_mod_converse(from + k, n, 1, i);
    }
    k
}

/// The rotation never moves onto an unavailable screen while any screen is
/// available: when the dwell is over it lands on the first available screen
/// after the active one in cyclic order, passing over exactly the
/// unavailable screens between them; only when no screen is available does
/// it fall back to the default screen. Before the dwell is over it stays.
pub proof fn law_skips_unavailable(s: ScreenScheduler, avail: Seq<bool>)
    requires
        s.wf(),
        avail.len() == s.screen_count,
    ensures
        s.ticks_on_current_screen < s.dwell ==> tick_spec(s, avail).active_screen_index
            == s.active_screen_index,
        s.ticks_on_current_screen >= s.dwell && some_available(avail) ==> exists|k: int|
            #[trigger] first_available_after(
                avail,
                s.active_screen_index as int,
                tick_spec(s, avail).active_screen_index as int,
                k,
            ),
        s.ticks_on_current_screen >= s.dwell && !some_available(avail) ==> tick_spec(
            s,
            avail,
        ).active_screen_index == DEFAULT_SCREEN,
{
    let from = s.active_screen_index as int;
    lemma_next_screen(avail, from);
    if some_available(avail) && s.ticks_on_current_screen >= s.dwell {
        let k = choose|k: int| #[trigger] first_available_after(avail, from, next_screen(avail, from), k);
        assert(first_available_after(avail, from, tick_spec(s, avail).active_screen_index as int, k));
    }
}

/// Where one move of the rotation lands, as a fact over positions: the first
/// available screen after `from` in cyclic order, or the default screen
/// when none is available.
pub proof fn lemma_next_screen(avail: Seq<bool>, from: int)
    requires
        0 <= from < avail.len(),
    ensures
        0 <= next_screen(avail, from) < avail.len(),
        some_available(avail) ==> exists|k: int|
            #[trigger] first_available_after(avail, from, next_screen(avail, from), k),
        !some_available(avail) ==> next_screen(avail, from) == DEFAULT_SCREEN,
{
    let n = avail.len() as int;
    lemma_small_mod(from as nat, n as nat);
    assert((from + 0) % n == from);
    lemma_search_steps(avail, from, 0, avail.len());
    assert(search(avail, (from + 0) % n, avail.len()) == search(avail, from, avail.len()));
    match search(avail, from, avail.len()) {
        Some(j) => {
            let k = choose|k: int| #[trigger] first_available_after(avail, from, j, k);
            assert(first_available_after(avail, from, j, k));
            lemma_mod_pos_bound(from + k, n);
            assert(next_screen(avail, from) == j);
        },
        None => {
            assert forall|i: int| 0 <= i < n implies !#[trigger] avail[i] by {
                let k = lemma_every_position_reached(n, from, i);
                assert(!avail[(from + k) % n]);
            }
        },
    }
}

impl ScreenScheduler {
    pub open spec fn wf(&self) -> bool {
        &&& self.screen_count >= 1
        &&& self.active_screen_index < self.screen_count
        &&& (self.ticks_on_current_screen <= self.dwell || self.ticks_on_current_screen <= 1)
    }

    /// A rotation of `screen_count` screens that starts on the default screen.
    pub fn new(screen_count: usize, dwell: u32) -> (r: ScreenScheduler)
        requires
            screen_count >= 1,
        ensures
            r.wf(),
            r.active_screen_index == DEFAULT_SCREEN,
            r.ticks_on_current_screen == 0,
            r.dwell == dwell,
            r.screen_count == screen_count,
    {
        ScreenScheduler {
            active_screen_index: DEFAULT_SCREEN,
            ticks_on_current_screen: 0,
            dwell,
            screen_count,
        }
    }

    /// Advances the rotation by one tick and returns the screen to show.
    /// Once the active screen has been shown for its dwell, the rotation
    /// moves to the next available screen in cyclic order, or to the default
    /// screen when none is available.
    pub fn tick(&mut self, available: &Vec<bool>) -> (r: usize)
        requires
            old(self).wf(),
            available@.len() == old(self).screen_count,
        ensures
            final(self).wf(),
            *final(self) == tick_spec(*old(self), available@),
            r == final(self).active_screen_index,
    {
        if self.ticks_on_current_screen >= self.dwell {
            self.active_screen_index = next_available(available, self.active_screen_index);
            self.ticks_on_current_screen = 1;
        } else {
            self.ticks_on_current_screen = self.ticks_on_current_screen + 1;
        }
        self.active_screen_index
    }
}

/// The screen that follows `from` in the rotation.
pub fn next_available(available: &Vec<bool>, from: usize) -> (r: usize)
    requires
        from < available@.len(),
    ensures
        r == next_screen(available@, from as int),
        r < available@.len(),
{
    let n = available.len();
    let mut i = from;
    let mut left: usize = n;
    while left > 0
        invariant
            n == available@.len(),
            i < n,
            left <= n,
            search(available@, from as int, n as nat) == search(available@, i as int, left as nat),
        decreases left,
    {
        let j = if i + 1 >= n {
            0
        } else {
            i + 1
        };
        if available[j] {
            return j;
        }
        i = j;
        left = left - 1;
    }
    DEFAULT_SCREEN
}

/// The screen whose frame is sent this tick: the selected one, unless its
/// data cannot be read right now, in which case the default screen stands in
/// for this tick only.
pub fn shown_screen(selected: usize, content_available: bool) -> (r: usize)
    ensures
        r == (if content_available { selected } else { DEFAULT_SCREEN }),
{
    if content_available {
        selected
    } else {
        DEFAULT_SCREEN
    }
}

} // verus!
