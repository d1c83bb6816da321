//! The decision engine: cross-turn state and the per-turn `expand` call.

use vstd::prelude::*;
use crate::map::{LandType, Grid, Pos, MAX_TILES};
use crate::rng::{rng_new, rng_with_seed, shuffle_vec};
use crate::score::{cand_better, cand_twice_lt, ACC_MAX};

verus! {

/// One movement: source, destination, half-split flag.
pub type Movement = (Pos, Pos, bool);

/// Largest magnitude a single tile contributes to a path score:
/// `MAX_AMOUNT + 1`.
pub const SCORE_STEP: i64 = 1000001;

/// Static configuration injected at construction.
#[derive(Clone, Copy, PartialEq, Eq, Structural, Debug)]
pub struct BotConfig {
    /// Retry budget, both for target reselection and for per-start
    /// search attempts.
    pub calc_cnt: u8,
    /// Exponent applied to path length when scoring a found route.
    pub score_power: u32,
}

impl BotConfig {
    pub open spec fn wf(self) -> bool {
        1 <= self.score_power <= 4
    }
}

/// Half of an army after the one-unit transfer cost.
pub open spec fn half_pool(a: int) -> int {
    if a >= 1 {
        (a - 1) / 2
    } else {
        0
    }
}

/// The decision engine and its cross-turn state.
pub struct Bot {
    /// The current map snapshot; updated externally between turns.
    pub gm: Grid,
    /// This bot's own color.
    pub my_color: u8,
    /// The sticky long-range objective, if committed.
    pub target: Option<Pos>,
    /// Colors treated as allies: never targeted, never captured.
    pub teammates: Vec<u8>,
    /// The committed frontier tile, the head of an in-progress advance.
    pub from: Option<Pos>,
    /// Static configuration, read-only after construction.
    pub config: BotConfig,
    /// Randomness for tie-breaking and shuffles; opaque to the verifier.
    pub rng: fastrand::Rng,
}

impl Bot {
    /// The committed frontier tile, the head of an in-progress advance.
    pub open spec fn spec_from(self) -> Option<Pos> {
        self.from
    }

    pub open spec fn spec_config(self) -> BotConfig {
        self.config
    }

    /// Well-formedness: a consistent map, a sane configuration, and
    /// cross-turn positions that still address tiles of the map.
    pub open spec fn wf(self) -> bool {
        &&& self.gm.wf()
        &&& self.spec_config().wf()
        &&& match self.target {
            Some(t) => self.gm.contains(t),
            None => true,
        }
        &&& match self.spec_from() {
            Some(f) => self.gm.contains(f),
            None => true,
        }
    }

    /// Everything except the random state and the two cross-turn fields.
    pub open spec fn same_core(self, other: Bot) -> bool {
        &&& self.gm == other.gm
        &&& self.my_color == other.my_color
        &&& self.teammates == other.teammates
        &&& self.spec_config() == other.spec_config()
    }

    /// Everything except the random state.
    pub open spec fn same_except_rng(self, other: Bot) -> bool {
        &&& self.same_core(other)
        &&& self.target == other.target
        &&& self.spec_from() == other.spec_from()
    }

    /// Color `c` belongs to a teammate.
    pub open spec fn is_team(self, c: u8) -> bool {
        self.teammates@.contains(c)
    }

    /// Hostile: neither neutral, nor self, nor a teammate.
    pub open spec fn is_enemy_color(self, c: u8) -> bool {
        c != self.my_color && c != 0 && !self.is_team(c)
    }

    /// A bot with the given configuration and an unpredictable seed.
    pub fn new(config: BotConfig) -> (b: Bot)
        requires
            config.wf(),
        ensures
            b.wf(),
            b.my_color == 0,
            b.target is None,
            b.spec_from() is None,
            b.teammates@.len() == 0,
            b.spec_config() == config,
            b.gm.spec_len() == 0,
    {
        Bot {
            gm: Grid::new(),
            my_color: 0,
            target: None,
            teammates: Vec::new(),
            from: None,
            config,
            rng: rng_new(),
        }
    }

    /// A bot whose randomness is seeded, so runs are reproducible.
    pub fn new_with_seed(config: BotConfig, seed: u64) -> (b: Bot)
        requires
            config.wf(),
        ensures
            b.wf(),
            b.my_color == 0,
            b.target is None,
            b.spec_from() is None,
            b.teammates@.len() == 0,
            b.spec_config() == config,
            b.gm.spec_len() == 0,
    {
        Bot {
            gm: Grid::new(),
            my_color: 0,
            target: None,
            teammates: Vec::new(),
            from: None,
            config,
            rng: rng_with_seed(seed),
        }
    }

    /// Read the committed frontier tile.
    pub fn committed_from(&self) -> (r: Option<Pos>)
        ensures
            r == self.spec_from(),
    {
        self.from
    }

    /// Whether `c` is a teammate's color.
    pub fn team_contains(&self, c: u8) -> (r: bool)
        ensures
            r == self.is_team(c),
    {
        let mut i: usize = 0;
        while i < self.teammates.len()
            invariant
                i <= self.teammates@.len(),
                forall|j: int| 0 <= j < i ==> self.teammates@[j] != c,
            decreases self.teammates@.len() - i,
        {
            if self.teammates[i] == c {
                return true;
            }
            i = i + 1;
        }
        false
    }

    // ----- Move Tactician -----

    /// A neighbour that makes the source contested for Rule A:
    /// an enemy-owned Land or City other than the destination itself.
    pub open spec fn threat_a(self, n: Pos, to: Pos) -> bool {
        let l = self.gm.tile_at(n);
        self.is_enemy_color(l.color) && (l.kind == LandType::City || l.kind == LandType::Land)
            && n != to
    }

    /// Rule A: split defensively when attacking a hostile tile that half
    /// the source army would still beat, while the source is contested
    /// from a third direction.
    pub open spec fn rule_a(self, from: Pos, to: Pos) -> bool {
        let fl = self.gm.tile_at(from);
        let tl = self.gm.tile_at(to);
        let ns = self.gm.spec_neighbours(from);
        self.is_enemy_color(tl.color) && half_pool(fl.amount as int) > tl.amount && (exists|k: int|
            0 <= k < ns.len() && self.threat_a(#[trigger] ns[k], to))
    }

    /// A neighbour that counts as a nearby threat for Rule B: any
    /// non-self, non-teammate Land or City other than the destination.
    pub open spec fn threat_b(self, n: Pos, to: Pos) -> bool {
        let l = self.gm.tile_at(n);
        l.color != self.my_color && !self.is_team(l.color) && (l.kind == LandType::City || l.kind
            == LandType::Land) && n != to
    }

    /// Rule B: split when capturing a neutral City with a stack of more
    /// than 25 while another neighbour of the source is contested.
    pub open spec fn rule_b(self, from: Pos, to: Pos) -> bool {
        let fl = self.gm.tile_at(from);
        let tl = self.gm.tile_at(to);
        let ns = self.gm.spec_neighbours(from);
        tl.kind == LandType::City && tl.color == 0 && fl.amount > 25 && (exists|k: int|
            0 <= k < ns.len() && self.threat_b(#[trigger] ns[k], to))
    }

    /// The half-split flag the tactician assigns to `(from, to)`.
    pub open spec fn split_flag(self, from: Pos, to: Pos) -> bool {
        self.rule_a(from, to) || self.rule_b(from, to)
    }

    /// Whether some neighbour of `from` is a Rule A threat.
    #[verifier::loop_isolation(false)]
    fn has_threat_a(&self, from: Pos, to: Pos) -> (r: bool)
        requires
            self.wf(),
            self.gm.contains(from),
        ensures
            r == (exists|k: int|
                0 <= k < self.gm.spec_neighbours(from).len() && self.threat_a(
                    #[trigger] self.gm.spec_neighbours(from)[k],
                    to,
                )),
    {
        let ns = self.gm.neighbours(from);
        proof {
            self.gm.lemma_neighbours_contained(from);
        }
        let mut i: usize = 0;
        while i < ns.len()
            invariant
                i <= ns@.len(),
                forall|k: int| 0 <= k < i ==> !self.threat_a(#[trigger] ns@[k], to),
            decreases ns@.len() - i,
        {
            let n = ns[i];
            let l = self.gm.lookup(n);
            if l.color != self.my_color && l.color != 0 && !self.team_contains(l.color) && (l.kind
                == LandType::City || l.kind == LandType::Land) && n != to {
                assert(self.threat_a(ns@[i as int], to));
                return true;
            }
            i = i + 1;
        }
        false
    }

    /// Whether some neighbour of `from` is a Rule B threat.
    #[verifier::loop_isolation(false)]
    fn has_threat_b(&self, from: Pos, to: Pos) -> (r: bool)
        requires
            self.wf(),
            self.gm.contains(from),
        ensures
            r == (exists|k: int|
                0 <= k < self.gm.spec_neighbours(from).len() && self.threat_b(
                    #[trigger] self.gm.spec_neighbours(from)[k],
                    to,
                )),
    {
        let ns = self.gm.neighbours(from);
        proof {
            self.gm.lemma_neighbours_contained(from);
        }
        let mut i: usize = 0;
        while i < ns.len()
            invariant
                i <= ns@.len(),
                forall|k: int| 0 <= k < i ==> !self.threat_b(#[trigger] ns@[k], to),
            decreases ns@.len() - i,
        {
            let n = ns[i];
            let l = self.gm.lookup(n);
            if l.color != self.my_color && !self.team_contains(l.color) && (l.kind
                == LandType::City || l.kind == LandType::Land) && n != to {
                assert(self.threat_b(ns@[i as int], to));
                return true;
            }
            i = i + 1;
        }
        false
    }

    /// The tactician: annotate `(from, to)` with the half-split flag.
    fn move_to(&self, from: Pos, to: Pos) -> (m: Movement)
        requires
            self.wf(),
            self.gm.contains(from),
            self.gm.contains(to),
        ensures
            m.0 == from,
            m.1 == to,
            m.2 == self.split_flag(from, to),
    {
        let fl = self.gm.lookup(from);
        let tl = self.gm.lookup(to);
        let mut half = false;
        let pool: i64 = if fl.amount >= 1 {
            (fl.amount - 1) / 2
        } else {
            0
        };
        if tl.color != self.my_color && tl.color != 0 && pool > tl.amount && !self.team_contains(
            tl.color,
        ) {
            if self.has_threat_a(from, to) {
                half = true;
            }
        }
        if tl.kind == LandType::City && tl.color == 0 && fl.amount > 25 && !half {
            if self.has_threat_b(from, to) {
                half = true;
            }
        }
        (from, to, half)
    }

    // ----- Target Selector -----

    /// A tile the selector may pursue: accessible, of known kind, and
    /// owned neither by self nor by a teammate.
    pub open spec fn target_candidate(self, p: Pos) -> bool {
        let l = self.gm.tile_at(p);
        &&& self.gm.contains(p)
        &&& self.gm.is_accessible(p)
        &&& l.kind != LandType::Unknown
        &&& l.kind != LandType::UnknownCity
        &&& l.color != self.my_color
        &&& !self.is_team(l.color)
    }

    /// Priority of a target; lower is more urgent.  Generals and
    /// contested cities first, neutral land last among known tiles.
    pub open spec fn target_priority(self, p: Pos) -> int {
        let l = self.gm.tile_at(p);
        if l.kind == LandType::General {
            1
        } else if l.kind == LandType::City && l.color != 0 {
            1
        } else if l.kind == LandType::City {
            5
        } else if l.kind == LandType::Land && l.color != 0 {
            2
        } else if l.kind == LandType::Land {
            3
        } else {
            9
        }
    }

    /// Priority of target `p`, executable form.
    fn target_score(&self, p: Pos) -> (s: u8)
        requires
            self.wf(),
            self.gm.contains(p),
        ensures
            s as int == self.target_priority(p),
    {
        let l = self.gm.lookup(p);
        if l.kind == LandType::General {
            1
        } else if l.kind == LandType::City && l.color != 0 {
            1
        } else if l.kind == LandType::City {
            5
        } else if l.kind == LandType::Land && l.color != 0 {
            2
        } else if l.kind == LandType::Land {
            3
        } else {
            9
        }
    }

    /// Choose a fresh objective: the accessible non-owned, non-ally tile
    /// of minimal priority, ties broken by the shuffle.  Returns `Some`
    /// exactly when such a tile exists.
    #[verifier::loop_isolation(false)]
    fn new_target(&mut self) -> (r: Option<Pos>)
        requires
            old(self).wf(),
        ensures
            final(self).wf(),
            final(self).same_except_rng(*old(self)),
            (r is Some) <==> (exists|p: Pos| old(self).target_candidate(p)),
            match r {
                Some(p) => old(self).target_candidate(p) && (forall|q: Pos|
                    old(self).target_candidate(q) ==> old(self).target_priority(p) <= old(
                        self,
                    ).target_priority(q)),
                None => true,
            },
    {
        let ghost og = *self;
        let n = self.gm.len_tiles();
        let mut cands: Vec<Pos> = Vec::new();
        let mut i: usize = 0;
        while i < n
            invariant
                i <= n,
                forall|j: int| 0 <= j < cands@.len() ==> og.target_candidate(#[trigger] cands@[j]),
                forall|k: int|
                    0 <= k < i && og.target_candidate(#[trigger] og.gm.spec_pos_at(k))
                        ==> cands@.contains(og.gm.spec_pos_at(k)),
            decreases n - i,
        {
            let p = self.gm.pos_at(i);
            let l = self.gm.lookup(p);
            let ghost pre = cands@;
            if self.gm.accessible(p) && l.kind != LandType::Unknown && l.kind
                != LandType::UnknownCity && l.color != self.my_color && !self.team_contains(
                l.color,
            ) {
                cands.push(p);
                proof {
                    assert(cands@ == pre.push(p));
                    assert forall|q: Pos| pre.contains(q) implies cands@.contains(q) by {
                        let k = choose|k: int| 0 <= k < pre.len() && pre[k] == q;
                        assert(cands@[k] == q);
                    }
                    assert(cands@[pre.len() as int] == p);
                    assert(cands@.contains(p));
                }
            } else {
                assert(!og.target_candidate(p));
            }
            i = i + 1;
        }
        proof {
            assert forall|q: Pos| og.target_candidate(q) implies cands@.contains(q) by {
                og.gm.lemma_idx_bounds(q);
                og.gm.lemma_pos_at_roundtrip(q);
            }
        }
        let ghost cands0 = cands@;
        shuffle_vec(&mut self.rng, &mut cands);
        proof {
            broadcast use vstd::seq_lib::group_to_multiset_ensures;

            assert forall|j: int| 0 <= j < cands@.len() implies og.target_candidate(
                #[trigger] cands@[j],
            ) by {
                let x = cands@[j];
                assert(cands@.contains(x));
                assert(cands@.to_multiset().count(x) > 0);
                assert(cands0.to_multiset().count(x) > 0);
                assert(cands0.contains(x));
                let k = choose|k: int| 0 <= k < cands0.len() && cands0[k] == x;
                assert(og.target_candidate(cands0[k]));
            }
            assert forall|q: Pos| og.target_candidate(q) implies cands@.contains(q) by {
                assert(cands0.contains(q));
                assert(cands0.to_multiset().count(q) > 0);
                assert(cands@.to_multiset().count(q) > 0);
            }
        }
        if cands.len() == 0 {
            proof {
                assert forall|p: Pos| !og.target_candidate(p) by {
                    if og.target_candidate(p) {
                        assert(cands@.contains(p));
                    }
                }
            }
            return None;
        }
        let mut best: usize = 0;
        let mut best_score: u8 = self.target_score(cands[0]);
        let mut j: usize = 1;
        while j < cands.len()
            invariant
                1 <= j <= cands@.len(),
                best < j,
                best_score as int == og.target_priority(cands@[best as int]),
                forall|k: int|
                    0 <= k < j ==> best_score as int <= og.target_priority(#[trigger] cands@[k]),
            decreases cands@.len() - j,
        {
            let s = self.target_score(cands[j]);
            if s < best_score {
                best = j;
                best_score = s;
            }
            j = j + 1;
        }
        let p = cands[best];
        proof {
            assert(og.target_candidate(p));
            assert forall|q: Pos| og.target_candidate(q) implies og.target_priority(p)
                <= og.target_priority(q) by {
                assert(cands@.contains(q));
                let k = choose|k: int| 0 <= k < cands@.len() && cands@[k] == q;
                assert(best_score as int <= og.target_priority(cands@[k]));
            }
        }
        Some(p)
    }

    // ----- Search helpers -----

    /// A tile's contribution to a path score: own or allied territory
    /// keeps its army minus the hop cost; anything else costs its full
    /// defended strength plus one.
    pub open spec fn spec_tile_score(self, p: Pos) -> int {
        tile_score_in(self.gm, self.my_color, self.teammates@, p)
    }

    /// A tile's contribution to a path score, executable form.
    fn tile_score(&self, p: Pos) -> (s: i64)
        requires
            self.wf(),
            self.gm.contains(p),
        ensures
            s as int == self.spec_tile_score(p),
            -SCORE_STEP <= s <= SCORE_STEP,
    {
        let l = self.gm.lookup(p);
        if l.color == self.my_color || self.team_contains(l.color) {
            l.amount - 1
        } else {
            -l.amount - 1
        }
    }

    /// A visible hostile tile of real kind.
    pub open spec fn enemy_tile(self, p: Pos) -> bool {
        enemy_tile_in(self.gm, self.my_color, self.teammates@, p)
    }

    /// Whether any hostile General, City or Land exists on the map;
    /// while none does, the search keeps its depth small.
    pub open spec fn enemy_present(self) -> bool {
        enemy_visible(self.gm, self.my_color, self.teammates@)
    }

    #[verifier::loop_isolation(false)]
    fn any_enemy(&self) -> (r: bool)
        requires
            self.wf(),
        ensures
            r == self.enemy_present(),
    {
        let n = self.gm.len_tiles();
        let mut i: usize = 0;
        while i < n
            invariant
                i <= n,
                forall|k: int|
                    0 <= k < i ==> !self.enemy_tile(#[trigger] self.gm.spec_pos_at(k)),
            decreases n - i,
        {
            let p = self.gm.pos_at(i);
            let l = self.gm.lookup(p);
            if l.color != self.my_color && l.color != 0 && !self.team_contains(l.color) && (l.kind
                == LandType::General || l.kind == LandType::City || l.kind == LandType::Land) {
                assert(self.gm.contains(p) && self.enemy_tile(p));
                return true;
            }
            assert(!self.enemy_tile(self.gm.spec_pos_at(i as int)));
            i = i + 1;
        }
        proof {
            assert forall|p: Pos| self.gm.contains(p) implies !enemy_tile_in(
                self.gm,
                self.my_color,
                self.teammates@,
                p,
            ) by {
                self.gm.lemma_idx_bounds(p);
                self.gm.lemma_pos_at_roundtrip(p);
                assert(!self.enemy_tile(p));
            }
        }
        false
    }

    /// An enemy-owned Land or City: a tile that makes a frontier tile
    /// unsafe as a launch point.
    pub open spec fn hostile_lc(self, p: Pos) -> bool {
        hostile_lc_in(self.gm, self.my_color, self.teammates@, p)
    }

    /// A safe launch point for the search: self-owned, more than one
    /// army, and no enemy Land or City adjacent.
    pub open spec fn safe_start(self, s: Pos) -> bool {
        safe_start_in(self.gm, self.my_color, self.teammates@, s)
    }

    /// The one-pass search is owed an answer: the target is a tile
    /// other than the start that the pruned hop graph reaches — in one
    /// hop whose net score is not a losing capture, or over any path
    /// while a visible hostile tile keeps the depth unbounded.
    pub open spec fn bfs_owed(self, start: Pos, t: Pos) -> bool {
        bfs_owed_in(self.gm, self.my_color, self.teammates@, start, t)
    }

    /// The whole search is owed an answer for target `t`: from the
    /// committed tile if one exists, else from some safe launch point.
    pub open spec fn search_owed(self, t: Pos) -> bool {
        search_owed_in(self.gm, self.my_color, self.teammates@, self.spec_from(), t)
    }

    /// Whether some neighbour of `p` is an enemy-owned Land or City.
    #[verifier::loop_isolation(false)]
    fn has_hostile_lc_neighbour(&self, p: Pos) -> (r: bool)
        requires
            self.wf(),
            self.gm.contains(p),
        ensures
            r == (exists|k: int|
                0 <= k < self.gm.spec_neighbours(p).len() && self.hostile_lc(
                    #[trigger] self.gm.spec_neighbours(p)[k],
                )),
    {
        let ns = self.gm.neighbours(p);
        proof {
            self.gm.lemma_neighbours_contained(p);
        }
        let mut i: usize = 0;
        while i < ns.len()
            invariant
                i <= ns@.len(),
                forall|k: int| 0 <= k < i ==> !self.hostile_lc(#[trigger] ns@[k]),
            decreases ns@.len() - i,
        {
            let n = ns[i];
            let l = self.gm.lookup(n);
            if l.color != self.my_color && l.color != 0 && !self.team_contains(l.color) && (l.kind
                == LandType::Land || l.kind == LandType::City) {
                assert(self.hostile_lc(ns@[i as int]));
                return true;
            }
            i = i + 1;
        }
        false
    }

    // ----- Path Planner -----

    /// A first hop the search may commit to: an in-map neighbour of the
    /// start tile that is not a teammate's General.
    pub open spec fn hop_ok(self, start: Pos, h: Pos) -> bool {
        step_ok(self.gm, self.teammates@, start, h)
    }

    /// A recorded search answer: a sound first hop that begins a pruned
    /// path to the target, with bounded score; a hop that is already
    /// the goal is never a losing one-step capture.
    spec fn cand_ok(self, start: Pos, target: Pos, c: Cand) -> bool {
        &&& self.hop_ok(start, c.hop)
        &&& 1 <= c.len <= MAX_TILES
        &&& -ACC_MAX <= c.acc <= ACC_MAX
        &&& (exists|path: Seq<Pos>|
            is_path_from(self.gm, self.teammates@, start, target, path) && path.len() >= 2
                && path[1] == c.hop)
        &&& (c.hop == target ==> self.spec_tile_score(start) + self.spec_tile_score(target) >= 0)
    }

    /// Queue-slot invariant of the search: every node after the start
    /// node carries a sound first hop and a bounded accumulated score.
    spec fn node_ok(self, start: Pos, nd: Node, idx: int) -> bool {
        &&& self.gm.contains(nd.pos)
        &&& nd.pos != start
        &&& 1 <= nd.len
        &&& nd.len <= idx
        &&& match nd.hop {
            Some(h) => self.hop_ok(start, h) && (exists|path: Seq<Pos>|
                is_path_from(self.gm, self.teammates@, start, nd.pos, path) && path.len() >= 2
                    && path[1] == h),
            None => false,
        }
        &&& (nd.len == 1 ==> nd.hop == Some(nd.pos) && nd.acc == self.spec_tile_score(start)
            + self.spec_tile_score(nd.pos))
        &&& -((nd.len as int + 1) * SCORE_STEP) <= nd.acc
        &&& nd.acc <= (nd.len as int + 1) * SCORE_STEP
    }

    /// Process one shuffled neighbour of a dequeued node: skip a
    /// teammate's General or an already-visited tile, otherwise mark it
    /// visited and enqueue it with its score, length and first hop.
    #[verifier::rlimit(100)]
    fn visit_neighbour(
        &self,
        start: Pos,
        node: Node,
        nxt: Pos,
        q: &mut Vec<Node>,
        vis: &mut Vec<bool>,
        head: usize,
    )
        requires
            self.wf(),
            self.gm.contains(start),
            self.gm.contains(node.pos),
            self.gm.contains(nxt),
            self.gm.spec_neighbours(node.pos).contains(nxt),
            old(vis)@.len() == self.gm.spec_len(),
            head >= 1,
            head <= old(q)@.len(),
            old(q)@.len() == count_true(old(vis)@),
            count_true(old(vis)@) <= self.gm.spec_len(),
            old(vis)@[self.gm.idx_of(start)],
            forall|idx: int|
                1 <= idx < old(q)@.len() ==> self.node_ok(start, #[trigger] old(q)@[idx], idx),
            forall|idx: int|
                1 <= idx < old(q)@.len() ==> (match (#[trigger] old(q)@[idx]).hop {
                    Some(h) => old(vis)@[self.gm.idx_of(h)],
                    None => false,
                }),
            forall|idx: int|
                1 <= idx < old(q)@.len() && (#[trigger] old(q)@[idx]).len >= 2 ==> old(
                    q,
                )@[idx].hop != Some(old(q)@[idx].pos),
            forall|p: Pos|
                self.gm.contains(p) && old(vis)@[#[trigger] self.gm.idx_of(p)] ==> (exists|
                idx: int| 0 <= idx < old(q)@.len() && (#[trigger] old(q)@[idx]).pos == p),
            node.len < head,
            -((node.len as int + 1) * SCORE_STEP) <= node.acc,
            node.acc <= (node.len as int + 1) * SCORE_STEP,
            node.pos == start ==> node.len == 0 && node.hop is None && node.acc
                == self.spec_tile_score(start),
            node.pos != start ==> 1 <= node.len && (match node.hop {
                Some(h) => self.hop_ok(start, h) && (exists|path: Seq<Pos>|
                    is_path_from(self.gm, self.teammates@, start, node.pos, path) && path.len()
                        >= 2 && path[1] == h) && old(vis)@[self.gm.idx_of(h)],
                None => false,
            }),
        ensures
            final(vis)@.len() == self.gm.spec_len(),
            head <= final(q)@.len(),
            final(q)@.len() == count_true(final(vis)@),
            count_true(final(vis)@) <= self.gm.spec_len(),
            final(q)@.len() >= old(q)@.len(),
            forall|i: int| 0 <= i < old(q)@.len() ==> final(q)@[i] == old(q)@[i],
            forall|c: Pos|
                self.gm.contains(c) && old(vis)@[#[trigger] self.gm.idx_of(c)] ==> final(vis)@[
                self.gm.idx_of(c)],
            final(vis)@[self.gm.idx_of(start)],
            forall|idx: int|
                1 <= idx < final(q)@.len() ==> self.node_ok(start, #[trigger] final(q)@[idx], idx),
            forall|idx: int|
                1 <= idx < final(q)@.len() ==> (match (#[trigger] final(q)@[idx]).hop {
                    Some(h) => final(vis)@[self.gm.idx_of(h)],
                    None => false,
                }),
            forall|idx: int|
                1 <= idx < final(q)@.len() && (#[trigger] final(q)@[idx]).len >= 2
                    ==> final(q)@[idx].hop != Some(final(q)@[idx].pos),
            forall|p: Pos|
                self.gm.contains(p) && final(vis)@[#[trigger] self.gm.idx_of(p)] ==> (exists|
                idx: int| 0 <= idx < final(q)@.len() && (#[trigger] final(q)@[idx]).pos == p),
            self.hop_ok(node.pos, nxt) ==> final(vis)@[self.gm.idx_of(nxt)],
    {
        proof {
            self.gm.lemma_wf_bounds();
            self.gm.lemma_idx_bounds(nxt);
        }
        let nl = self.gm.lookup(nxt);
        let mut skip = false;
        if nl.kind == LandType::General && self.team_contains(nl.color) {
            skip = true;
            proof {
                assert(!self.hop_ok(node.pos, nxt));
            }
        }
        if !skip {
            let nidx = self.gm.index_of(nxt);
            if !vis[nidx] {
                let ghost vis1 = vis@;
                vis.set(nidx, true);
                proof {
                    lemma_count_true_update(vis1, nidx as int);
                    lemma_count_true_le(vis@);
                    if nxt == start {
                        assert(vis1[self.gm.idx_of(start)]);
                        assert(false);
                    }
                    assert forall|c: Pos|
                        self.gm.contains(c) && vis1[self.gm.idx_of(c)] implies vis@[
                    #[trigger] self.gm.idx_of(c)] by {
                        self.gm.lemma_idx_bounds(c);
                    }
                }
                let hop: Option<Pos> = if node.pos == start {
                    Some(nxt)
                } else {
                    node.hop
                };
                let sc = self.tile_score(nxt);
                let newnode = Node { pos: nxt, acc: node.acc + sc, len: node.len + 1, hop };
                proof {
                    assert(step_ok(self.gm, self.teammates@, node.pos, nxt));
                    if node.pos == start {
                        lemma_extend_path(self.gm, self.teammates@, start, node.pos, nxt, nxt);
                    } else {
                        lemma_extend_path(
                            self.gm,
                            self.teammates@,
                            start,
                            node.pos,
                            node.hop.unwrap(),
                            nxt,
                        );
                    }
                }
                let ghost qlen = q@.len();
                let ghost qpre = q@;
                q.push(newnode);
                proof {
                    assert(q@[qlen as int] == newnode);
                    assert(self.node_ok(start, newnode, qlen as int));
                    assert forall|p2: Pos|
                        self.gm.contains(p2) && vis@[self.gm.idx_of(p2)] implies (exists|idx: int|
                        0 <= idx < q@.len() && (#[trigger] q@[idx]).pos == p2) by {
                        self.gm.lemma_idx_bounds(p2);
                        if self.gm.idx_of(p2) == nidx as int {
                            self.gm.lemma_pos_at_roundtrip(p2);
                            self.gm.lemma_pos_at_roundtrip(nxt);
                            assert(q@[qlen as int].pos == p2);
                        } else {
                            assert(vis1[self.gm.idx_of(p2)]);
                            let idx0 = choose|idx0: int|
                                0 <= idx0 < qpre.len() && (#[trigger] qpre[idx0]).pos == p2;
                            assert(q@[idx0].pos == p2);
                        }
                    }
                }
            }
        }
    }

    /// Expand one dequeued search node: shuffle its neighbours and push
    /// every unvisited one that is not a teammate's General, keeping the
    /// whole queue/visited machinery intact.
    #[verifier::rlimit(100)]
    fn expand_node(
        &mut self,
        start: Pos,
        target: Pos,
        found_enemy: bool,
        node: Node,
        q: &mut Vec<Node>,
        vis: &mut Vec<bool>,
        head: usize,
    )
        requires
            old(self).wf(),
            old(self).gm.contains(start),
            old(self).gm.contains(target),
            old(vis)@.len() == old(self).gm.spec_len(),
            head >= 1,
            head <= old(q)@.len(),
            old(q)@.len() == count_true(old(vis)@),
            count_true(old(vis)@) <= old(self).gm.spec_len(),
            old(q)@.len() >= 1,
            old(q)@[0].pos == start,
            old(q)@[0].len == 0,
            old(q)@[0].hop is None,
            old(q)@[0].acc == old(self).spec_tile_score(start),
            old(vis)@[old(self).gm.idx_of(start)],
            forall|idx: int|
                1 <= idx < old(q)@.len() ==> old(self).node_ok(start, #[trigger] old(q)@[idx], idx),
            forall|idx: int|
                1 <= idx < old(q)@.len() ==> (match (#[trigger] old(q)@[idx]).hop {
                    Some(h) => old(vis)@[old(self).gm.idx_of(h)],
                    None => false,
                }),
            forall|idx: int|
                1 <= idx < old(q)@.len() && (#[trigger] old(q)@[idx]).len >= 2 ==> old(q)@[idx].hop
                    != Some(old(q)@[idx].pos),
            forall|p: Pos|
                old(self).gm.contains(p) && old(vis)@[#[trigger] old(self).gm.idx_of(p)] ==> (
                exists|idx: int| 0 <= idx < old(q)@.len() && (#[trigger] old(q)@[idx]).pos == p),
            forall|idx: int, c: Pos|
                0 <= idx < head - 1 && old(q)@[idx].pos != target && (found_enemy
                    || old(q)@[idx].len <= 6) && #[trigger] step_ok(
                    old(self).gm,
                    old(self).teammates@,
                    old(q)@[idx].pos,
                    c,
                ) ==> old(vis)@[old(self).gm.idx_of(c)],
            old(q)@[head - 1] == node,
            found_enemy || node.len <= 6,
            old(self).gm.contains(node.pos),
            node.len < head,
            -((node.len as int + 1) * SCORE_STEP) <= node.acc,
            node.acc <= (node.len as int + 1) * SCORE_STEP,
            node.pos == start ==> node.len == 0 && node.hop is None && node.acc == old(
                self,
            ).spec_tile_score(start),
            node.pos != start ==> 1 <= node.len && (match node.hop {
                Some(h) => old(self).hop_ok(start, h) && (exists|path: Seq<Pos>|
                    is_path_from(old(self).gm, old(self).teammates@, start, node.pos, path)
                        && path.len() >= 2 && path[1] == h) && old(vis)@[old(self).gm.idx_of(h)],
                None => false,
            }),
        ensures
            final(self).wf(),
            final(self).same_except_rng(*old(self)),
            final(vis)@.len() == old(self).gm.spec_len(),
            head <= final(q)@.len(),
            final(q)@.len() == count_true(final(vis)@),
            count_true(final(vis)@) <= old(self).gm.spec_len(),
            final(q)@.len() >= old(q)@.len(),
            forall|i: int| 0 <= i < old(q)@.len() ==> final(q)@[i] == old(q)@[i],
            forall|c: Pos|
                old(self).gm.contains(c) && old(vis)@[#[trigger] old(self).gm.idx_of(c)]
                    ==> final(vis)@[old(self).gm.idx_of(c)],
            final(vis)@[old(self).gm.idx_of(start)],
            forall|idx: int|
                1 <= idx < final(q)@.len() ==> old(self).node_ok(
                    start,
                    #[trigger] final(q)@[idx],
                    idx,
                ),
            forall|idx: int|
                1 <= idx < final(q)@.len() ==> (match (#[trigger] final(q)@[idx]).hop {
                    Some(h) => final(vis)@[old(self).gm.idx_of(h)],
                    None => false,
                }),
            forall|idx: int|
                1 <= idx < final(q)@.len() && (#[trigger] final(q)@[idx]).len >= 2
                    ==> final(q)@[idx].hop != Some(final(q)@[idx].pos),
            forall|p: Pos|
                old(self).gm.contains(p) && final(vis)@[#[trigger] old(self).gm.idx_of(p)] ==> (
                exists|idx: int|
                    0 <= idx < final(q)@.len() && (#[trigger] final(q)@[idx]).pos == p),
            forall|idx: int, c: Pos|
                0 <= idx < head && final(q)@[idx].pos != target && (found_enemy
                    || final(q)@[idx].len <= 6) && #[trigger] step_ok(
                    old(self).gm,
                    old(self).teammates@,
                    final(q)@[idx].pos,
                    c,
                ) ==> final(vis)@[old(self).gm.idx_of(c)],
    {
        proof {
            self.gm.lemma_wf_bounds();
        }
        let mut ns = self.gm.neighbours(node.pos);
        let ghost ns0 = ns@;
        shuffle_vec(&mut self.rng, &mut ns);
        proof {
            broadcast use vstd::seq_lib::group_to_multiset_ensures;

            self.gm.lemma_neighbours_contained(node.pos);
            assert forall|k: int| 0 <= k < ns@.len() implies self.gm.spec_neighbours(
                node.pos,
            ).contains(#[trigger] ns@[k]) && self.gm.contains(ns@[k]) by {
                let x = ns@[k];
                assert(ns@.contains(x));
                assert(ns@.to_multiset().count(x) > 0);
                assert(ns0.to_multiset().count(x) > 0);
                assert(ns0.contains(x));
                let w = choose|w: int| 0 <= w < ns0.len() && ns0[w] == x;
                assert(self.gm.contains(ns0[w]));
            }
        }
        let mut j: usize = 0;
        while j < ns.len()
            invariant
                j <= ns@.len(),
                self.wf(),
                self.same_except_rng(*old(self)),
                self.gm.contains(start),
                self.gm.contains(target),
                self.gm.contains(node.pos),
                1 <= head,
                head <= old(q)@.len(),
                node.len < head,
                -((node.len as int + 1) * SCORE_STEP) <= node.acc,
                node.acc <= (node.len as int + 1) * SCORE_STEP,
                node.pos == start ==> node.len == 0 && node.hop is None && node.acc
                    == self.spec_tile_score(start),
                node.pos != start ==> 1 <= node.len && (match node.hop {
                    Some(h) => self.hop_ok(start, h) && (exists|path: Seq<Pos>|
                        is_path_from(self.gm, self.teammates@, start, node.pos, path)
                            && path.len() >= 2 && path[1] == h),
                    None => false,
                }),
                vis@.len() == self.gm.spec_len(),
                head <= q@.len(),
                q@.len() == count_true(vis@),
                count_true(vis@) <= self.gm.spec_len(),
                q@.len() >= old(q)@.len(),
                forall|i: int| 0 <= i < old(q)@.len() ==> q@[i] == old(q)@[i],
                forall|c: Pos|
                    self.gm.contains(c) && old(vis)@[#[trigger] self.gm.idx_of(c)] ==> vis@[
                    self.gm.idx_of(c)],
                vis@[self.gm.idx_of(start)],
                forall|idx: int|
                    1 <= idx < q@.len() ==> self.node_ok(start, #[trigger] q@[idx], idx),
                forall|idx: int|
                    1 <= idx < q@.len() ==> (match (#[trigger] q@[idx]).hop {
                        Some(h) => vis@[self.gm.idx_of(h)],
                        None => false,
                    }),
                forall|idx: int|
                    1 <= idx < q@.len() && (#[trigger] q@[idx]).len >= 2 ==> q@[idx].hop != Some(
                        q@[idx].pos,
                    ),
                forall|p: Pos|
                    self.gm.contains(p) && vis@[#[trigger] self.gm.idx_of(p)] ==> (exists|idx: int|
                        0 <= idx < q@.len() && (#[trigger] q@[idx]).pos == p),
                forall|idx: int, c: Pos|
                    0 <= idx < head - 1 && q@[idx].pos != target && (found_enemy || q@[idx].len
                        <= 6) && #[trigger] step_ok(
                        self.gm,
                        self.teammates@,
                        q@[idx].pos,
                        c,
                    ) ==> vis@[self.gm.idx_of(c)],
                forall|k: int|
                    0 <= k < ns@.len() ==> self.gm.spec_neighbours(node.pos).contains(
                        #[trigger] ns@[k],
                    ) && self.gm.contains(ns@[k]),
                forall|l: int|
                    0 <= l < j && #[trigger] self.hop_ok(node.pos, ns@[l]) ==> vis@[self.gm.idx_of(
                        ns@[l],
                    )],
                node.pos != start ==> (match node.hop {
                    Some(h) => vis@[self.gm.idx_of(h)],
                    None => false,
                }),
            decreases ns@.len() - j,
        {
            let nxt = ns[j];
            self.visit_neighbour(start, node, nxt, &mut *q, &mut *vis, head);
            j = j + 1;
        }
        proof {
            broadcast use vstd::seq_lib::group_to_multiset_ensures;

            assert forall|c: Pos| #[trigger] self.hop_ok(node.pos, c) implies vis@[self.gm.idx_of(
                c,
            )] by {
                assert(ns0.contains(c));
                assert(ns0.to_multiset().count(c) > 0);
                assert(ns@.to_multiset().count(c) > 0);
                assert(ns@.contains(c));
                let l = choose|l: int| 0 <= l < ns@.len() && ns@[l] == c;
                assert(self.hop_ok(node.pos, ns@[l]));
            }
            assert forall|idx: int, c: Pos|
                0 <= idx < head && q@[idx].pos != target && (found_enemy || q@[idx].len <= 6)
                    && #[trigger] step_ok(
                    old(self).gm,
                    old(self).teammates@,
                    q@[idx].pos,
                    c,
                ) implies vis@[old(self).gm.idx_of(c)] by {
                if idx == head - 1 {
                    assert(q@[idx] == node);
                    assert(self.hop_ok(node.pos, c));
                } else {
                    assert(step_ok(self.gm, self.teammates@, q@[idx].pos, c));
                }
            }
        }
    }

    /// One breadth-first pass from `start` toward `target`, visiting
    /// each tile at most once in shuffled neighbour order, improving
    /// `tmp` when the target is reached with a better score.  A pass
    /// that is owed an answer (one-hop goal with a non-losing score,
    /// or any reachable goal while the depth is unbounded) records one.
    #[verifier::loop_isolation(false)]
    #[verifier::rlimit(100)]
    fn bfs_once(&mut self, start: Pos, target: Pos, found_enemy: bool, tmp: &mut Option<Cand>)
        requires
            old(self).wf(),
            old(self).gm.contains(start),
            old(self).gm.contains(target),
            match *old(tmp) {
                Some(c) => old(self).cand_ok(start, target, c),
                None => true,
            },
        ensures
            final(self).wf(),
            final(self).same_except_rng(*old(self)),
            match *final(tmp) {
                Some(c) => old(self).cand_ok(start, target, c),
                None => *old(tmp) is None,
            },
            (start != target && (old(self).hop_ok(start, target) ==> old(self).spec_tile_score(
                start,
            ) + old(self).spec_tile_score(target) >= 0) && (old(self).hop_ok(start, target) || (
            found_enemy && (exists|path: Seq<Pos>|
                is_path_from(old(self).gm, old(self).teammates@, start, target, path)))))
                ==> *final(tmp) is Some,
    {
        proof {
            self.gm.lemma_wf_bounds();
        }
        let n = self.gm.len_tiles();
        let mut vis: Vec<bool> = Vec::new();
        let mut i: usize = 0;
        while i < n
            invariant
                i <= n,
                vis@.len() == i,
                count_true(vis@) == 0,
                forall|k: int| 0 <= k < i ==> vis@[k] == false,
            decreases n - i,
        {
            proof {
                lemma_count_true_push(vis@, false);
            }
            vis.push(false);
            i = i + 1;
        }
        let sidx = self.gm.index_of(start);
        let ghost vis0 = vis@;
        vis.set(sidx, true);
        proof {
            lemma_count_true_update(vis0, sidx as int);
            lemma_count_true_le(vis@);
        }
        let s_sc = self.tile_score(start);
        let mut q: Vec<Node> = Vec::new();
        q.push(Node { pos: start, acc: s_sc, len: 0, hop: None });
        let mut head: usize = 0;
        proof {
            assert forall|p: Pos| self.gm.contains(p) && vis@[self.gm.idx_of(p)] implies (exists|
            idx: int| 0 <= idx < q@.len() && (#[trigger] q@[idx]).pos == p) by {
                self.gm.lemma_idx_bounds(p);
                if self.gm.idx_of(p) == sidx as int {
                    self.gm.lemma_pos_at_roundtrip(p);
                    self.gm.lemma_pos_at_roundtrip(start);
                    assert(p == start);
                    assert(q@[0].pos == p);
                } else {
                    assert(vis@[self.gm.idx_of(p)] == false);
                }
            }
        }
        while head < q.len()
            invariant
                self.wf(),
                self.same_except_rng(*old(self)),
                n == self.gm.spec_len(),
                vis@.len() == n,
                head <= q@.len(),
                q@.len() == count_true(vis@),
                count_true(vis@) <= n,
                q@.len() >= 1,
                q@[0].pos == start,
                q@[0].len == 0,
                q@[0].hop is None,
                q@[0].acc == self.spec_tile_score(start),
                vis@[self.gm.idx_of(start)],
                forall|idx: int|
                    1 <= idx < q@.len() ==> self.node_ok(start, #[trigger] q@[idx], idx),
                forall|idx: int|
                    1 <= idx < q@.len() ==> (match (#[trigger] q@[idx]).hop {
                        Some(h) => vis@[self.gm.idx_of(h)],
                        None => false,
                    }),
                forall|idx: int|
                    1 <= idx < q@.len() && (#[trigger] q@[idx]).len >= 2 ==> q@[idx].hop != Some(
                        q@[idx].pos,
                    ),
                forall|p: Pos|
                    self.gm.contains(p) && vis@[#[trigger] self.gm.idx_of(p)] ==> (exists|idx: int|
                        0 <= idx < q@.len() && (#[trigger] q@[idx]).pos == p),
                forall|idx: int, c: Pos|
                    0 <= idx < head && q@[idx].pos != target && (found_enemy || q@[idx].len <= 6)
                        && #[trigger] step_ok(
                        self.gm,
                        self.teammates@,
                        q@[idx].pos,
                        c,
                    ) ==> vis@[self.gm.idx_of(c)],
                (start != target && (self.hop_ok(start, target) ==> self.spec_tile_score(start)
                    + self.spec_tile_score(target) >= 0)) ==> (forall|i3: int|
                    0 <= i3 < head && (#[trigger] q@[i3]).pos == target ==> (*tmp) is Some),
                match *tmp {
                    Some(c) => self.cand_ok(start, target, c),
                    None => *old(tmp) is None,
                },
            decreases n - head,
        {
            let node: Node = q[head];
            let ghost pidx = head as int;
            head = head + 1;
            proof {
                if pidx >= 1 {
                    assert(self.node_ok(start, q@[pidx], pidx));
                } else {
                    assert(node == q@[0]);
                }
                if node.pos == start && pidx >= 1 {
                    assert(false);
                }
                assert(node.len < head);
            }
            let mut recorded = false;
            if node.pos == target && node.len >= 1 {
                if !(node.acc < 0 && node.len < 2) {
                    proof {
                        if node.hop == Some(node.pos) {
                            assert(!(node.len >= 2));
                        }
                    }
                    let better = match *tmp {
                        None => true,
                        Some(c) => cand_better(
                            node.acc,
                            node.len,
                            c.acc,
                            c.len,
                            self.config.score_power,
                        ),
                    };
                    if better {
                        let h = node.hop.unwrap();
                        *tmp = Some(Cand { hop: h, acc: node.acc, len: node.len });
                        recorded = true;
                    }
                }
            }
            proof {
                if start != target && (self.hop_ok(start, target) ==> self.spec_tile_score(start)
                    + self.spec_tile_score(target) >= 0) && node.pos == target {
                    assert(pidx >= 1);
                    assert(node.len >= 1);
                    if node.len == 1 {
                        assert(node.hop == Some(node.pos));
                        assert(self.hop_ok(start, target));
                        assert(node.acc >= 0);
                    }
                    assert(!(node.acc < 0 && node.len < 2));
                    assert((*tmp) is Some);
                }
            }
            if !recorded {
                if found_enemy || node.len <= 6 {
                    self.expand_node(start, target, found_enemy, node, &mut q, &mut vis, head);
                }
            }
        }
        proof {
            if start != target && (old(self).hop_ok(start, target) ==> old(self).spec_tile_score(
                start,
            ) + old(self).spec_tile_score(target) >= 0) && (old(self).hop_ok(start, target) || (
            found_enemy && (exists|path: Seq<Pos>|
                is_path_from(old(self).gm, old(self).teammates@, start, target, path)))) {
                if self.hop_ok(start, target) {
                    assert(self.hop_ok(q@[0].pos, target));
                    assert(step_ok(self.gm, self.teammates@, q@[0].pos, target));
                    assert(vis@[self.gm.idx_of(target)]);
                } else {
                    let pth = choose|pth: Seq<Pos>|
                        is_path_from(old(self).gm, old(self).teammates@, start, target, pth);
                    assert(is_path_from(self.gm, self.teammates@, start, target, pth));
                    reveal(is_path_from);
                    assert forall|a: Pos, c: Pos|
                        self.gm.contains(a) && a != target && vis@[self.gm.idx_of(a)]
                            && #[trigger] step_ok(self.gm, self.teammates@, a, c) implies vis@[
                    self.gm.idx_of(c)] by {
                        let idx = choose|idx: int| 0 <= idx < q@.len() && q@[idx].pos == a;
                        assert(step_ok(self.gm, self.teammates@, q@[idx].pos, c));
                    }
                    lemma_path_visited(self.gm, self.teammates@, target, vis@, pth, pth.len() - 1);
                    assert(pth[pth.len() - 1] == target);
                }
                assert(vis@[self.gm.idx_of(target)]);
                let tdx = choose|tdx: int| 0 <= tdx < q@.len() && q@[tdx].pos == target;
                assert((*tmp) is Some);
            }
        }
    }

    /// Run up to `calc_cnt` search passes from one start tile, with the
    /// diminishing-returns cutoff on the third pass, and merge the best
    /// answer found into `best`.
    #[verifier::loop_isolation(false)]
    fn run_start(
        &mut self,
        start: Pos,
        target: Pos,
        found_enemy: bool,
        best: &mut Option<(Pos, Cand)>,
    )
        requires
            old(self).wf(),
            old(self).gm.contains(start),
            old(self).gm.contains(target),
            match *old(best) {
                Some(sc) => old(self).gm.contains(sc.0) && old(self).cand_ok(sc.0, target, sc.1),
                None => true,
            },
        ensures
            final(self).wf(),
            final(self).same_except_rng(*old(self)),
            match *final(best) {
                None => *old(best) is None,
                Some(sc) => (*final(best) == *old(best)) || (sc.0 == start && old(self).cand_ok(
                    start,
                    target,
                    sc.1,
                )),
            },
            (old(self).spec_config().calc_cnt >= 1 && start != target && (old(self).hop_ok(
                start,
                target,
            ) ==> old(self).spec_tile_score(start) + old(self).spec_tile_score(target) >= 0) && (
            old(self).hop_ok(start, target) || (found_enemy && (exists|path: Seq<Pos>|
                is_path_from(old(self).gm, old(self).teammates@, start, target, path)))))
                ==> *final(best) is Some,
    {
        let mut tmp: Option<Cand> = None;
        let mut t: u8 = 0;
        let mut stop = false;
        let cc = self.config.calc_cnt;
        while t < cc && !stop
            invariant
                self.wf(),
                self.same_except_rng(*old(self)),
                match tmp {
                    Some(c) => self.cand_ok(start, target, c),
                    None => true,
                },
                (t == 0 && !stop) || ((start != target && (self.hop_ok(start, target)
                    ==> self.spec_tile_score(start) + self.spec_tile_score(target) >= 0) && (
                self.hop_ok(start, target) || (found_enemy && (exists|path: Seq<Pos>|
                    is_path_from(self.gm, self.teammates@, start, target, path))))) ==> tmp
                    is Some),
            decreases cc - t,
        {
            self.bfs_once(start, target, found_enemy, &mut tmp);
            if t == 2 {
                let ab = match tmp {
                    None => true,
                    Some(c) => match *best {
                        None => false,
                        Some(sc) => cand_twice_lt(
                            c.acc,
                            c.len,
                            sc.1.acc,
                            sc.1.len,
                            self.config.score_power,
                        ),
                    },
                };
                if ab {
                    stop = true;
                }
            }
            t = t + 1;
        }
        let do_merge = match tmp {
            None => false,
            Some(c) => match *best {
                None => true,
                Some(sc) => cand_better(c.acc, c.len, sc.1.acc, sc.1.len, self.config.score_power),
            },
        };
        if do_merge {
            *best = Some((start, tmp.unwrap()));
        }
    }

    /// Search from the committed tile if one exists, else from every
    /// safe launch point; return the winning start and its first hop.
    #[verifier::loop_isolation(false)]
    fn search_all(&mut self, target: Pos) -> (res: Option<(Pos, Pos)>)
        requires
            old(self).wf(),
            old(self).gm.contains(target),
        ensures
            final(self).wf(),
            final(self).same_except_rng(*old(self)),
            match res {
                Some(sh) => {
                    &&& old(self).gm.contains(sh.0)
                    &&& (match old(self).spec_from() {
                        Some(f) => sh.0 == f,
                        None => old(self).safe_start(sh.0),
                    })
                    &&& old(self).hop_ok(sh.0, sh.1)
                    &&& (exists|path: Seq<Pos>|
                        is_path_from(old(self).gm, old(self).teammates@, sh.0, target, path)
                            && path.len() >= 2 && path[1] == sh.1)
                    &&& (sh.1 == target ==> old(self).spec_tile_score(sh.0) + old(
                        self,
                    ).spec_tile_score(target) >= 0)
                },
                None => true,
            },
            (old(self).spec_config().calc_cnt >= 1 && old(self).search_owed(target)) ==> res
                is Some,
    {
        let found_enemy = self.any_enemy();
        let mut best: Option<(Pos, Cand)> = None;
        match self.from {
            Some(f) => {
                self.run_start(f, target, found_enemy, &mut best);
            },
            None => {
                let n = self.gm.len_tiles();
                let mut i: usize = 0;
                while i < n
                    invariant
                        i <= n,
                        self.wf(),
                        self.same_except_rng(*old(self)),
                        match best {
                            Some(sc) => self.gm.contains(sc.0) && self.cand_ok(sc.0, target, sc.1)
                                && self.safe_start(sc.0),
                            None => true,
                        },
                        forall|k: int|
                            0 <= k < i && self.spec_config().calc_cnt >= 1 && self.safe_start(
                                #[trigger] self.gm.spec_pos_at(k),
                            ) && self.bfs_owed(self.gm.spec_pos_at(k), target) ==> best is Some,
                    decreases n - i,
                {
                    let p = self.gm.pos_at(i);
                    let l = self.gm.lookup(p);
                    if l.color == self.my_color && l.amount > 1 {
                        if !self.has_hostile_lc_neighbour(p) {
                            assert(self.safe_start(p));
                            self.run_start(p, target, found_enemy, &mut best);
                        } else {
                            proof {
                                assert(!self.safe_start(self.gm.spec_pos_at(i as int)));
                            }
                        }
                    } else {
                        proof {
                            assert(!self.safe_start(self.gm.spec_pos_at(i as int)));
                        }
                    }
                    i = i + 1;
                }
                proof {
                    if self.spec_config().calc_cnt >= 1 && self.search_owed(target)
                        && self.spec_from() is None {
                        let st = choose|st: Pos|
                            safe_start_in(self.gm, self.my_color, self.teammates@, st)
                                && #[trigger] bfs_owed_in(
                                self.gm,
                                self.my_color,
                                self.teammates@,
                                st,
                                target,
                            );
                        assert(self.safe_start(st));
                        self.gm.lemma_idx_bounds(st);
                        self.gm.lemma_pos_at_roundtrip(st);
                        assert(best is Some);
                    }
                }
            },
        }
        match best {
            None => None,
            Some(sc) => Some((sc.0, sc.1.hop)),
        }
    }

    /// Whether the committed target is missing or no longer worth
    /// pursuing (it became self-owned or teammate-owned).
    pub open spec fn target_stale(self) -> bool {
        stale_in(self.gm, self.my_color, self.teammates@, self.target)
    }

    /// One planner attempt: refresh a stale target, search, and either
    /// commit a movement, report that no target exists at all, or
    /// report a failed search (target cleared for the next attempt).
    #[verifier::loop_isolation(false)]
    fn plan_attempt(&mut self) -> (o: PlanOutcome)
        requires
            old(self).wf(),
        ensures
            final(self).wf(),
            final(self).same_core(*old(self)),
            match o {
                PlanOutcome::NoTarget => {
                    &&& final(self).target is None
                    &&& final(self).spec_from() is None
                    &&& !(exists|p: Pos| old(self).target_candidate(p))
                },
                PlanOutcome::Failed => final(self).target is None && (final(self).spec_from()
                    == old(self).spec_from() || final(self).spec_from() is None) && (old(
                    self,
                ).target_stale() ==> final(self).spec_from() is None),
                PlanOutcome::Move(m) => {
                    &&& final(self).spec_from() == Some(m.1)
                    &&& old(self).gm.contains(m.0) && old(self).gm.contains(m.1)
                    &&& old(self).hop_ok(m.0, m.1)
                    &&& m.2 == old(self).split_flag(m.0, m.1)
                    &&& (old(self).spec_from() == Some(m.0) || old(self).safe_start(m.0))
                    &&& final(self).target != Some(m.1)
                    &&& (match final(self).target {
                        Some(t2) => (old(self).target == Some(t2) || old(self).target_candidate(
                            t2,
                        )) && (exists|path: Seq<Pos>|
                            is_path_from(old(self).gm, old(self).teammates@, m.0, t2, path)
                                && path.len() >= 2 && path[1] == m.1),
                        None => (old(self).target == Some(m.1) || old(self).target_candidate(m.1))
                            && old(self).spec_tile_score(m.0) + old(self).spec_tile_score(m.1)
                            >= 0,
                    })
                },
            },
            (old(self).target_stale() && !(exists|p: Pos| old(self).target_candidate(p))) ==> o
                is NoTarget,
            (!old(self).target_stale() && old(self).spec_config().calc_cnt >= 1 && (match old(
                self,
            ).target {
                Some(tv) => old(self).search_owed(tv),
                None => false,
            })) ==> o is Move,
            !old(self).target_stale() ==> (match o {
                PlanOutcome::NoTarget => false,
                PlanOutcome::Failed => final(self).target is None,
                PlanOutcome::Move(m) => {
                    &&& final(self).target == (if Some(m.1) == old(self).target {
                        None::<Pos>
                    } else {
                        old(self).target
                    })
                    &&& (match old(self).spec_from() {
                        Some(f) => m.0 == f,
                        None => true,
                    })
                },
            }),
    {
        let stale = match self.target {
            None => true,
            Some(tp) => {
                let l = self.gm.lookup(tp);
                l.color == self.my_color || self.team_contains(l.color)
            },
        };
        if stale {
            let nt = self.new_target();
            self.target = nt;
            self.from = None;
        }
        let tp = match self.target {
            Some(tp) => tp,
            None => {
                return PlanOutcome::NoTarget;
            },
        };
        let res = self.search_all(tp);
        match res {
            None => {
                self.target = None;
                PlanOutcome::Failed
            },
            Some(sh) => {
                let s = sh.0;
                let hop = sh.1;
                if hop == tp {
                    self.target = None;
                }
                let m = self.move_to(s, hop);
                self.from = Some(hop);
                proof {
                    assert(old(self).target == Some(tp) || old(self).target_candidate(tp));
                    assert(self.target == (if hop == tp {
                        None::<Pos>
                    } else {
                        Some(tp)
                    }));
                }
                PlanOutcome::Move(m)
            },
        }
    }

    /// The Path Planner: search toward the sticky target, reselecting
    /// it on failure up to the retry budget; empty once the budget is
    /// exhausted.  A successful movement commits its first hop as the
    /// next turn's start.
    #[verifier::loop_isolation(false)]
    fn move_to_target(&mut self, try_time: u8) -> (r: Option<Movement>)
        requires
            old(self).wf(),
        ensures
            final(self).wf(),
            final(self).same_core(*old(self)),
            try_time >= old(self).spec_config().calc_cnt ==> r is None && *final(self) == *old(
                self,
            ),
            match r {
                Some(m) => {
                    &&& final(self).spec_from() == Some(m.1)
                    &&& old(self).gm.contains(m.0) && old(self).gm.contains(m.1)
                    &&& old(self).hop_ok(m.0, m.1)
                    &&& m.2 == old(self).split_flag(m.0, m.1)
                    &&& (old(self).spec_from() == Some(m.0) || old(self).safe_start(m.0))
                    &&& final(self).target != Some(m.1)
                    &&& (match final(self).target {
                        Some(t2) => (old(self).target == Some(t2) || old(self).target_candidate(
                            t2,
                        )) && (exists|path: Seq<Pos>|
                            is_path_from(old(self).gm, old(self).teammates@, m.0, t2, path)
                                && path.len() >= 2 && path[1] == m.1),
                        None => (old(self).target == Some(m.1) || old(self).target_candidate(m.1))
                            && old(self).spec_tile_score(m.0) + old(self).spec_tile_score(m.1)
                            >= 0,
                    })
                },
                None => try_time < old(self).spec_config().calc_cnt ==> final(self).target
                    is None && (final(self).spec_from() == old(self).spec_from()
                    || final(self).spec_from() is None),
            },
            (try_time < old(self).spec_config().calc_cnt && old(self).target_stale() && !(
            exists|p: Pos| old(self).target_candidate(p))) ==> r is None && final(self).target
                is None && final(self).spec_from() is None,
            (try_time < old(self).spec_config().calc_cnt && !old(self).target_stale() && (
            match old(self).target {
                Some(tv) => old(self).search_owed(tv),
                None => false,
            })) ==> r is Some,
    {
        if try_time >= self.config.calc_cnt {
            return None;
        }
        let cc = self.config.calc_cnt;
        let mut t = try_time;
        while t < cc
            invariant
                try_time <= t,
                self.wf(),
                self.same_core(*old(self)),
                self.spec_from() == old(self).spec_from() || self.spec_from() is None,
                self.target == old(self).target || self.target is None,
                t == try_time ==> self.same_except_rng(*old(self)),
                t > try_time ==> self.target is None,
                (try_time < old(self).spec_config().calc_cnt && old(self).target_stale() && !(
                exists|p: Pos| old(self).target_candidate(p))) ==> t == try_time,
                (try_time < old(self).spec_config().calc_cnt && !old(self).target_stale() && (
                match old(self).target {
                    Some(tv) => old(self).search_owed(tv),
                    None => false,
                })) ==> t == try_time,
            decreases cc - t,
        {
            let ghost pre = *self;
            let o = self.plan_attempt();
            proof {
                if pre.target_stale() && !(exists|p: Pos| pre.target_candidate(p)) {
                    assert(o is NoTarget);
                }
                if t == try_time && old(self).target_stale() && !(exists|p: Pos|
                    old(self).target_candidate(p)) {
                    assert forall|p: Pos| !pre.target_candidate(p) by {
                        if pre.target_candidate(p) {
                            assert(old(self).target_candidate(p));
                        }
                    }
                    assert(pre.target_stale());
                    assert(o is NoTarget);
                }
            }
            match o {
                PlanOutcome::Move(m) => {
                    proof {
                        assert forall|t2: Pos| pre.target_candidate(t2) implies old(
                            self,
                        ).target_candidate(t2) by {}
                    }
                    return Some(m);
                },
                PlanOutcome::NoTarget => {
                    return None;
                },
                PlanOutcome::Failed => {
                    t = t + 1;
                },
            }
        }
        None
    }

    // ----- Local Expander -----

    /// Capture margin the local expander demands: enemy-owned Cities
    /// resist more strongly.
    pub open spec fn capture_delta(self, t: Pos) -> int {
        let l = self.gm.tile_at(t);
        if l.kind == LandType::City && l.color != 0 {
            2
        } else {
            1
        }
    }

    /// An immediately profitable one-step capture: a self-owned tile
    /// whose army strictly beats a non-self, non-ally neighbour plus
    /// the capture margin.
    pub open spec fn expand_candidate(self, f: Pos, t: Pos) -> bool {
        let fl = self.gm.tile_at(f);
        let tl = self.gm.tile_at(t);
        &&& self.gm.contains(f)
        &&& fl.color == self.my_color
        &&& self.gm.spec_neighbours(f).contains(t)
        &&& tl.color != self.my_color
        &&& !self.is_team(tl.color)
        &&& fl.amount > tl.amount + self.capture_delta(t)
    }

    pub open spec fn has_expand_candidate(self) -> bool {
        exists|f: Pos, t: Pos| self.expand_candidate(f, t)
    }

    /// Ranking key of a local candidate; lower is better.  The source
    /// and destination type weights dominate; ties go to the larger
    /// army margin.
    pub open spec fn move_key(self, f: Pos, t: Pos) -> int {
        let fl = self.gm.tile_at(f);
        let tl = self.gm.tile_at(t);
        let fs: int = if fl.kind == LandType::Land {
            1
        } else if fl.kind == LandType::City {
            2
        } else if fl.kind == LandType::General {
            3
        } else {
            4
        };
        let ts: int = if tl.kind == LandType::General {
            10
        } else if tl.kind == LandType::City && tl.color != 0 {
            20
        } else if tl.kind == LandType::City {
            40
        } else if tl.kind == LandType::Land && tl.color != 0 {
            30
        } else if tl.kind == LandType::Land {
            50
        } else {
            90
        };
        (fs + ts) * 2097152 + (1000000 - (fl.amount - tl.amount))
    }

    proof fn lemma_candidate_contained(self, f: Pos, t: Pos)
        requires
            self.wf(),
            self.expand_candidate(f, t),
        ensures
            self.gm.contains(f),
            self.gm.contains(t),
    {
        let ns = self.gm.spec_neighbours(f);
        let k = choose|k: int| 0 <= k < ns.len() && ns[k] == t;
        self.gm.lemma_neighbours_contained(f);
    }

    /// Ranking key of a local candidate, executable form.
    fn move_key_val(&self, f: Pos, t: Pos) -> (k: i64)
        requires
            self.wf(),
            self.gm.contains(f),
            self.gm.contains(t),
        ensures
            k as int == self.move_key(f, t),
    {
        let fl = self.gm.lookup(f);
        let tl = self.gm.lookup(t);
        let fs: i64 = if fl.kind == LandType::Land {
            1
        } else if fl.kind == LandType::City {
            2
        } else if fl.kind == LandType::General {
            3
        } else {
            4
        };
        let ts: i64 = if tl.kind == LandType::General {
            10
        } else if tl.kind == LandType::City && tl.color != 0 {
            20
        } else if tl.kind == LandType::City {
            40
        } else if tl.kind == LandType::Land && tl.color != 0 {
            30
        } else if tl.kind == LandType::Land {
            50
        } else {
            90
        };
        (fs + ts) * 2097152 + (1000000 - (fl.amount - tl.amount))
    }

    /// One turn.  Take the best immediately profitable one-step capture
    /// if any exists; otherwise fall through to the Path Planner.
    /// Empty means "pass this turn".
    #[verifier::loop_isolation(false)]
    pub fn expand(&mut self) -> (r: Option<Movement>)
        requires
            old(self).wf(),
        ensures
            final(self).wf(),
            final(self).same_core(*old(self)),
            old(self).has_expand_candidate() ==> r is Some,
            match r {
                Some(m) => {
                    &&& old(self).gm.contains(m.0) && old(self).gm.contains(m.1)
                    &&& old(self).gm.spec_neighbours(m.0).contains(m.1)
                    &&& m.2 == old(self).split_flag(m.0, m.1)
                },
                None => true,
            },
            old(self).has_expand_candidate() ==> (match r {
                Some(m) => {
                    &&& old(self).expand_candidate(m.0, m.1)
                    &&& old(self).gm.tile_at(m.1).color != old(self).my_color
                    &&& !old(self).is_team(old(self).gm.tile_at(m.1).color)
                    &&& old(self).gm.tile_at(m.0).amount > old(self).gm.tile_at(m.1).amount + old(
                        self,
                    ).capture_delta(m.1)
                    &&& (forall|f: Pos, t: Pos|
                        old(self).expand_candidate(f, t) ==> old(self).move_key(m.0, m.1) <= old(
                            self,
                        ).move_key(f, t))
                    &&& final(self).spec_from() == old(self).spec_from()
                    &&& final(self).target == (if old(self).spec_from() != Some(m.0) && old(
                        self,
                    ).target != Some(m.1) {
                        None::<Pos>
                    } else {
                        old(self).target
                    })
                },
                None => false,
            }),
            !old(self).has_expand_candidate() ==> (match r {
                Some(m) => {
                    &&& final(self).spec_from() == Some(m.1)
                    &&& old(self).hop_ok(m.0, m.1)
                    &&& (old(self).spec_from() == Some(m.0) || old(self).safe_start(m.0))
                    &&& final(self).target != Some(m.1)
                    &&& (match final(self).target {
                        Some(t2) => (old(self).target == Some(t2) || old(self).target_candidate(
                            t2,
                        )) && (exists|path: Seq<Pos>|
                            is_path_from(old(self).gm, old(self).teammates@, m.0, t2, path)
                                && path.len() >= 2 && path[1] == m.1),
                        None => (old(self).target == Some(m.1) || old(self).target_candidate(m.1))
                            && old(self).spec_tile_score(m.0) + old(self).spec_tile_score(m.1)
                            >= 0,
                    })
                },
                None => {
                    &&& (old(self).spec_config().calc_cnt == 0 ==> final(self).target == old(
                        self,
                    ).target && final(self).spec_from() == old(self).spec_from())
                    &&& (old(self).spec_config().calc_cnt > 0 ==> final(self).target is None && (
                    final(self).spec_from() == old(self).spec_from() || final(self).spec_from()
                        is None))
                },
            }),
            (!old(self).has_expand_candidate() && old(self).spec_config().calc_cnt > 0 && old(
                self,
            ).target_stale() && !(exists|p: Pos| old(self).target_candidate(p))) ==> r is None
                && final(self).target is None && final(self).spec_from() is None,
            (!old(self).has_expand_candidate() && old(self).spec_config().calc_cnt >= 1 && !old(
                self,
            ).target_stale() && (match old(self).target {
                Some(tv) => old(self).search_owed(tv),
                None => false,
            })) ==> r is Some,
    {
        let ghost og = *self;
        let n = self.gm.len_tiles();
        let mut moves: Vec<(Pos, Pos)> = Vec::new();
        let mut i: usize = 0;
        while i < n
            invariant
                i <= n,
                *self == og,
                forall|j: int|
                    0 <= j < moves@.len() ==> og.expand_candidate(
                        (#[trigger] moves@[j]).0,
                        moves@[j].1,
                    ),
                forall|k: int, t: Pos|
                    0 <= k < i && #[trigger] og.expand_candidate(og.gm.spec_pos_at(k), t)
                        ==> moves@.contains((og.gm.spec_pos_at(k), t)),
            decreases n - i,
        {
            let f = self.gm.pos_at(i);
            let fl = self.gm.lookup(f);
            if fl.color == self.my_color {
                let ns = self.gm.neighbours(f);
                proof {
                    self.gm.lemma_neighbours_contained(f);
                }
                let mut j: usize = 0;
                while j < ns.len()
                    invariant
                        j <= ns@.len(),
                        forall|jj: int|
                            0 <= jj < moves@.len() ==> og.expand_candidate(
                                (#[trigger] moves@[jj]).0,
                                moves@[jj].1,
                            ),
                        forall|k: int, t: Pos|
                            0 <= k < i && #[trigger] og.expand_candidate(og.gm.spec_pos_at(k), t)
                                ==> moves@.contains((og.gm.spec_pos_at(k), t)),
                        forall|l: int|
                            0 <= l < j && og.expand_candidate(f, #[trigger] ns@[l])
                                ==> moves@.contains((f, ns@[l])),
                    decreases ns@.len() - j,
                {
                    let t = ns[j];
                    let tl = self.gm.lookup(t);
                    let delta: i64 = if tl.kind == LandType::City && tl.color != 0 {
                        2
                    } else {
                        1
                    };
                    let ghost pre = moves@;
                    if tl.color != self.my_color && fl.amount > tl.amount + delta
                        && !self.team_contains(tl.color) {
                        moves.push((f, t));
                        proof {
                            assert(moves@ == pre.push((f, t)));
                            assert forall|x: (Pos, Pos)| pre.contains(x) implies moves@.contains(
                                x,
                            ) by {
                                let k = choose|k: int| 0 <= k < pre.len() && pre[k] == x;
                                assert(moves@[k] == x);
                            }
                            assert(moves@[pre.len() as int] == (f, t));
                            assert(moves@.contains((f, t)));
                            assert(og.gm.spec_neighbours(f)[j as int] == t);
                            assert(og.gm.spec_neighbours(f).contains(t));
                            assert(og.expand_candidate(f, t));
                        }
                    } else {
                        proof {
                            assert(!og.expand_candidate(f, ns@[j as int]));
                        }
                    }
                    j = j + 1;
                }
                proof {
                    assert forall|t: Pos| og.expand_candidate(f, t) implies moves@.contains(
                        (f, t),
                    ) by {
                        let ns0 = og.gm.spec_neighbours(f);
                        let l = choose|l: int| 0 <= l < ns0.len() && ns0[l] == t;
                        assert(og.expand_candidate(f, ns0[l]));
                    }
                }
            } else {
                proof {
                    assert forall|t: Pos| og.expand_candidate(f, t) implies moves@.contains(
                        (f, t),
                    ) by {
                        assert(og.gm.tile_at(f).color == og.my_color);
                    }
                }
            }
            i = i + 1;
        }
        proof {
            assert forall|f: Pos, t: Pos| og.expand_candidate(f, t) implies moves@.contains(
                (f, t),
            ) by {
                og.gm.lemma_idx_bounds(f);
                og.gm.lemma_pos_at_roundtrip(f);
                assert(og.expand_candidate(og.gm.spec_pos_at(og.gm.idx_of(f)), t));
            }
        }
        let ghost moves0 = moves@;
        shuffle_vec(&mut self.rng, &mut moves);
        proof {
            broadcast use vstd::seq_lib::group_to_multiset_ensures;

            assert forall|j: int| 0 <= j < moves@.len() implies og.expand_candidate(
                (#[trigger] moves@[j]).0,
                moves@[j].1,
            ) by {
                let x = moves@[j];
                assert(moves@.contains(x));
                assert(moves@.to_multiset().count(x) > 0);
                assert(moves0.to_multiset().count(x) > 0);
                assert(moves0.contains(x));
                let k = choose|k: int| 0 <= k < moves0.len() && moves0[k] == x;
                assert(og.expand_candidate(moves0[k].0, moves0[k].1));
            }
            assert forall|f: Pos, t: Pos| og.expand_candidate(f, t) implies moves@.contains(
                (f, t),
            ) by {
                assert(moves0.contains((f, t)));
                assert(moves0.to_multiset().count((f, t)) > 0);
                assert(moves@.to_multiset().count((f, t)) > 0);
            }
        }
        if moves.len() == 0 {
            proof {
                assert forall|f: Pos, t: Pos| !og.expand_candidate(f, t) by {
                    if og.expand_candidate(f, t) {
                        assert(moves@.contains((f, t)));
                    }
                }
            }
            let ghost s1 = *self;
            let r = self.move_to_target(0);
            proof {
                assert forall|p: Pos| s1.target_candidate(p) implies og.target_candidate(p) by {}
                assert forall|p: Pos| og.target_candidate(p) implies s1.target_candidate(p) by {}
            }
            return r;
        }
        let first = moves[0];
        proof {
            og.lemma_candidate_contained(first.0, first.1);
        }
        let mut best: usize = 0;
        let mut best_key: i64 = self.move_key_val(first.0, first.1);
        let mut j: usize = 1;
        while j < moves.len()
            invariant
                1 <= j <= moves@.len(),
                best < j,
                self.wf(),
                self.same_except_rng(og),
                best_key as int == og.move_key(moves@[best as int].0, moves@[best as int].1),
                forall|k: int|
                    0 <= k < j ==> best_key as int <= og.move_key(
                        (#[trigger] moves@[k]).0,
                        moves@[k].1,
                    ),
            decreases moves@.len() - j,
        {
            let pj = moves[j];
            proof {
                og.lemma_candidate_contained(pj.0, pj.1);
            }
            let kj = self.move_key_val(pj.0, pj.1);
            if kj < best_key {
                best = j;
                best_key = kj;
            }
            j = j + 1;
        }
        let sel = moves[best];
        let fb = sel.0;
        let tb = sel.1;
        proof {
            assert(og.expand_candidate(fb, tb));
            og.lemma_candidate_contained(fb, tb);
            assert forall|f: Pos, t: Pos| og.expand_candidate(f, t) implies og.move_key(fb, tb)
                <= og.move_key(f, t) by {
                assert(moves@.contains((f, t)));
                let k = choose|k: int| 0 <= k < moves@.len() && moves@[k] == (f, t);
                assert(best_key as int <= og.move_key(moves@[k].0, moves@[k].1));
            }
        }
        let same_from = match self.from {
            Some(ff) => ff == fb,
            None => false,
        };
        let same_target = match self.target {
            Some(tt) => tt == tb,
            None => false,
        };
        // the chosen expansion diverged from the committed plan: neither
        // its source is the committed tile nor its destination the target
        if !same_from && !same_target {
            self.target = None;
        }
        let m = self.move_to(fb, tb);
        Some(m)
    }
}

/// One queued search state: current tile, accumulated score, path
/// length, and the first hop this branch committed to.
#[derive(Clone, Copy)]
struct Node {
    pos: Pos,
    acc: i64,
    len: usize,
    hop: Option<Pos>,
}

/// A recorded search answer: the first hop of the best path found so
/// far, with its accumulated score and length.
#[derive(Clone, Copy)]
struct Cand {
    hop: Pos,
    acc: i64,
    len: usize,
}

/// Outcome of one planner attempt.
enum PlanOutcome {
    Move(Movement),
    NoTarget,
    Failed,
}

/// If every tile of the map is owned by self or a teammate, the Target
/// Selector has no candidate to offer, so the engine passes the turn.
pub proof fn lemma_no_viable_target(b: Bot)
    requires
        forall|p: Pos|
            b.gm.contains(p) ==> (#[trigger] b.gm.tile_at(p)).color == b.my_color || b.is_team(
                b.gm.tile_at(p).color,
            ),
    ensures
        !(exists|p: Pos| b.target_candidate(p)),
{
}

/// Whether a held target is missing or no longer worth pursuing, over
/// the map and colors.
pub open spec fn stale_in(gm: Grid, my: u8, team: Seq<u8>, target: Option<Pos>) -> bool {
    match target {
        None => true,
        Some(t) => gm.tile_at(t).color == my || team.contains(gm.tile_at(t).color),
    }
}

/// A pruned hop: `b` is an in-map neighbour of `a` and not a
/// teammate's General.
pub open spec fn step_ok(gm: Grid, team: Seq<u8>, a: Pos, b: Pos) -> bool {
    &&& gm.contains(b)
    &&& gm.spec_neighbours(a).contains(b)
    &&& !(gm.tile_at(b).kind == LandType::General && team.contains(gm.tile_at(b).color))
}

/// A pruned walk: consecutive entries are pruned hops, beginning at
/// `start` and ending at `t`.
#[verifier::opaque]
pub open spec fn is_path_from(gm: Grid, team: Seq<u8>, start: Pos, t: Pos, path: Seq<Pos>) -> bool {
    &&& path.len() >= 1
    &&& path[0] == start
    &&& path[path.len() - 1] == t
    &&& forall|j: int| 0 <= j < path.len() - 1 ==> step_ok(gm, team, #[trigger] path[j], path[j + 1])
}

/// An enemy-owned Land or City at `p`, over the map and colors.
pub open spec fn hostile_lc_in(gm: Grid, my: u8, team: Seq<u8>, p: Pos) -> bool {
    let l = gm.tile_at(p);
    l.color != my && l.color != 0 && !team.contains(l.color) && (l.kind == LandType::Land
        || l.kind == LandType::City)
}

/// A safe launch point, over the map and colors: self-owned, more than
/// one army, and no enemy Land or City adjacent.
pub open spec fn safe_start_in(gm: Grid, my: u8, team: Seq<u8>, s: Pos) -> bool {
    &&& gm.contains(s)
    &&& gm.tile_at(s).color == my
    &&& gm.tile_at(s).amount > 1
    &&& !(exists|k: int|
        0 <= k < gm.spec_neighbours(s).len() && hostile_lc_in(
            gm,
            my,
            team,
            #[trigger] gm.spec_neighbours(s)[k],
        ))
}

/// The one-pass search is owed an answer, over the map and colors.
pub open spec fn bfs_owed_in(gm: Grid, my: u8, team: Seq<u8>, start: Pos, t: Pos) -> bool {
    &&& start != t
    &&& (step_ok(gm, team, start, t) ==> tile_score_in(gm, my, team, start) + tile_score_in(
        gm,
        my,
        team,
        t,
    ) >= 0)
    &&& (step_ok(gm, team, start, t) || (enemy_visible(gm, my, team) && (exists|path: Seq<Pos>|
        is_path_from(gm, team, start, t, path))))
}

/// The whole search is owed an answer, over the map, colors and the
/// committed tile.
pub open spec fn search_owed_in(gm: Grid, my: u8, team: Seq<u8>, fro: Option<Pos>, t: Pos) -> bool {
    match fro {
        Some(f) => bfs_owed_in(gm, my, team, f, t),
        None => exists|s: Pos|
            safe_start_in(gm, my, team, s) && #[trigger] bfs_owed_in(gm, my, team, s, t),
    }
}

/// A tile's contribution to a path score, over the map and colors.
pub open spec fn tile_score_in(gm: Grid, my: u8, team: Seq<u8>, p: Pos) -> int {
    let l = gm.tile_at(p);
    if l.color == my || team.contains(l.color) {
        l.amount - 1
    } else {
        -l.amount - 1
    }
}

/// A hostile General, City or Land at `p`.
pub open spec fn enemy_tile_in(gm: Grid, my: u8, team: Seq<u8>, p: Pos) -> bool {
    let l = gm.tile_at(p);
    l.color != my && l.color != 0 && !team.contains(l.color) && (l.kind == LandType::General
        || l.kind == LandType::City || l.kind == LandType::Land)
}

/// Whether any hostile General, City or Land is on the map.
pub open spec fn enemy_visible(gm: Grid, my: u8, team: Seq<u8>) -> bool {
    exists|p: Pos| gm.contains(p) && #[trigger] enemy_tile_in(gm, my, team, p)
}

/// Extending a pruned walk by one hop keeps it a pruned walk with the
/// same first hop (a walk of one hop starts fresh).
proof fn lemma_extend_path(gm: Grid, team: Seq<u8>, start: Pos, mid: Pos, h: Pos, nxt: Pos)
    requires
        step_ok(gm, team, mid, nxt),
        (mid == start && h == nxt) || (mid != start && (exists|path: Seq<Pos>|
            is_path_from(gm, team, start, mid, path) && path.len() >= 2 && path[1] == h)),
    ensures
        exists|path: Seq<Pos>|
            is_path_from(gm, team, start, nxt, path) && path.len() >= 2 && path[1] == h,
{
    reveal(is_path_from);
    if mid == start {
        let pp = seq![start, nxt];
        assert(pp[1 - 1] == start);
        assert(is_path_from(gm, team, start, nxt, pp) && pp.len() >= 2 && pp[1] == h);
    } else {
        let p0 = choose|p0: Seq<Pos>|
            is_path_from(gm, team, start, mid, p0) && p0.len() >= 2 && p0[1] == h;
        let pp = p0.push(nxt);
        assert forall|jj: int| 0 <= jj < pp.len() - 1 implies step_ok(
            gm,
            team,
            #[trigger] pp[jj],
            pp[jj + 1],
        ) by {
            if jj < p0.len() - 1 {
                assert(pp[jj] == p0[jj] && pp[jj + 1] == p0[jj + 1]);
                assert(step_ok(gm, team, p0[jj], p0[jj + 1]));
            } else {
                assert(pp[jj] == mid && pp[jj + 1] == nxt);
            }
        }
        assert(is_path_from(gm, team, start, nxt, pp) && pp.len() >= 2 && pp[1] == h);
    }
}

/// Once the visited set is closed under pruned hops (except at the
/// target), every tile on a pruned walk from a visited start is
/// visited too, unless the walk crossed the target first.
proof fn lemma_path_visited(
    gm: Grid,
    team: Seq<u8>,
    target: Pos,
    visv: Seq<bool>,
    path: Seq<Pos>,
    i: int,
)
    requires
        gm.wf(),
        visv.len() == gm.spec_len(),
        path.len() >= 1,
        gm.contains(path[0]),
        visv[gm.idx_of(path[0])],
        forall|j: int| 0 <= j < path.len() - 1 ==> step_ok(gm, team, #[trigger] path[j], path[j + 1]),
        forall|a: Pos, c: Pos|
            gm.contains(a) && a != target && visv[gm.idx_of(a)] && #[trigger] step_ok(
                gm,
                team,
                a,
                c,
            ) ==> visv[gm.idx_of(c)],
        0 <= i < path.len(),
    ensures
        gm.contains(path[i]),
        visv[gm.idx_of(target)] || visv[gm.idx_of(path[i])],
    decreases i,
{
    if i > 0 {
        lemma_path_visited(gm, team, target, visv, path, i - 1);
        assert(step_ok(gm, team, path[i - 1], path[(i - 1) + 1]));
        assert(step_ok(gm, team, path[i - 1], path[i]));
        if !visv[gm.idx_of(target)] {
            assert(visv[gm.idx_of(path[i - 1])]);
            if path[i - 1] == target {
                assert(false);
            }
        }
    }
}

/// How many entries of a boolean sequence are set.
spec fn count_true(s: Seq<bool>) -> int
    decreases s.len(),
{
    if s.len() == 0 {
        0
    } else {
        count_true(s.drop_last()) + if s.last() {
            1int
        } else {
            0
        }
    }
}

proof fn lemma_count_true_le(s: Seq<bool>)
    ensures
        0 <= count_true(s) <= s.len(),
    decreases s.len(),
{
    if s.len() > 0 {
        lemma_count_true_le(s.drop_last());
    }
}

proof fn lemma_count_true_push(s: Seq<bool>, b: bool)
    ensures
        count_true(s.push(b)) == count_true(s) + if b {
            1int
        } else {
            0
        },
{
    assert(s.push(b).drop_last() =~= s);
    assert(s.push(b).last() == b);
}

proof fn lemma_count_true_update(s: Seq<bool>, i: int)
    requires
        0 <= i < s.len(),
        s[i] == false,
    ensures
        count_true(s.update(i, true)) == count_true(s) + 1,
    decreases s.len(),
{
    if i == s.len() - 1 {
        assert(s.update(i, true).drop_last() =~= s.drop_last());
        assert(s.update(i, true).last() == true);
    } else {
        assert(s.update(i, true).drop_last() =~= s.drop_last().update(i, true));
        assert(s.update(i, true).last() == s.last());
        lemma_count_true_update(s.drop_last(), i);
    }
}

} // verus!
