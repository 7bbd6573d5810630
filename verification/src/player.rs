use vstd::prelude::*;

verus! {

/// Lives the player starts a level with (the hearts of the HUD).
pub const START_LIVES: u32 = 3;

/// Frames during which the player cannot be hurt again after a hit, so that
/// an enemy standing next to them costs one life, not one per frame.
pub const INVULNERABILITY_FRAMES: u32 = 90;

/// What the player's body has left: lives, the grace period after a hit,
/// and whether they are hidden inside a locker (where enemies can neither
/// see nor touch them). Position and view direction are world measurements
/// kept beside it.
#[derive(Clone, Copy)]
pub struct Vitals {
    pub lives: u32,
    pub invulnerable_frames: u32,
    pub hidden: bool,
}

/// The vitals after a hit: a life is lost and the grace period starts,
/// unless the grace period is still running or no life is left.
pub open spec fn after_hit(v: Vitals) -> Vitals {
    if v.invulnerable_frames > 0 || v.lives == 0 {
        v
    } else {
        Vitals { lives: (v.lives - 1) as u32, invulnerable_frames: INVULNERABILITY_FRAMES, ..v }
    }
}

/// The vitals one frame later: the grace period runs down.
pub open spec fn after_tick(v: Vitals) -> Vitals {
    if v.invulnerable_frames > 0 {
        Vitals { invulnerable_frames: (v.invulnerable_frames - 1) as u32, ..v }
    } else {
        v
    }
}

/// The vitals after `k` frames.
pub open spec fn after_ticks(v: Vitals, k: nat) -> Vitals
    decreases k,
{
    if k == 0 {
        v
    } else {
        after_tick(after_ticks(v, (k - 1) as nat))
    }
}

impl Vitals {
    /// Full lives, no grace period, not hidden.
    pub fn new() -> (v: Self)
        ensures
            v.lives == START_LIVES,
            v.invulnerable_frames == 0,
            !v.hidden,
    {
        Vitals { lives: START_LIVES, invulnerable_frames: 0, hidden: false }
    }

    /// Whether a hit right now would be ignored.
    pub fn is_invulnerable(&self) -> (b: bool)
        ensures
            b == (self.invulnerable_frames > 0),
    {
        self.invulnerable_frames > 0
    }

    /// Loses a life, unless the grace period of the previous hit is still
    /// running (or no life is left); a counted hit starts a new grace
    /// period.
    pub fn take_damage(&mut self)
        ensures
            *final(self) == after_hit(*old(self)),
    {
        if self.invulnerable_frames > 0 || self.lives == 0 {
            return;
        }
        self.lives = self.lives - 1;
        self.invulnerable_frames = INVULNERABILITY_FRAMES;
    }

    /// Advances one frame: the grace period runs down.
    pub fn tick(&mut self)
        ensures
            *final(self) == after_tick(*old(self)),
    {
        if self.invulnerable_frames > 0 {
            self.invulnerable_frames = self.invulnerable_frames - 1;
        }
    }
}

/// Takes a life from the player when some enemy is close enough
/// (`enemy_close`); the grace period already keeps it from counting more
/// than once. Hidden in a locker the player is safe even with an enemy
/// standing right outside: that is the point of hiding.
pub fn damage_player_if_close(player: &mut Vitals, enemy_close: bool)
    ensures
        old(player).hidden || !enemy_close ==> *final(player) == *old(player),
        !old(player).hidden && enemy_close ==> *final(player) == after_hit(*old(player)),
{
    if player.hidden {
        return;
    }
    if enemy_close {
        player.take_damage();
    }
}

/// A hit costs at most one life, and lives never grow.
pub proof fn lemma_hit_costs_at_most_one(v: Vitals)
    ensures
        after_hit(v).lives <= v.lives,
        after_hit(v).lives + 1 >= v.lives,
        after_tick(v).lives == v.lives,
{
}

/// A hit outside the grace period costs exactly one life (while one is
/// left) and starts the full grace period; inside it, or with no life
/// left, it changes nothing. Hiding is never touched by a hit.
pub proof fn lemma_counted_hit(v: Vitals)
    ensures
        v.invulnerable_frames == 0 && v.lives > 0 ==> after_hit(v).lives + 1 == v.lives
            && after_hit(v).invulnerable_frames == INVULNERABILITY_FRAMES,
        v.invulnerable_frames > 0 || v.lives == 0 ==> after_hit(v) == v,
        after_hit(v).hidden == v.hidden,
        after_tick(v).hidden == v.hidden,
        v.invulnerable_frames > 0 ==> after_tick(v).invulnerable_frames + 1 == v.invulnerable_frames,
        v.invulnerable_frames == 0 ==> after_tick(v) == v,
{
}

/// During the grace period after a counted hit, further hits cost nothing:
/// whatever happens in the next frames short of the full period, one more
/// hit leaves the lives where the first hit left them. Once the period has
/// run out, a hit counts again.
pub proof fn lemma_grace_period(v: Vitals, k: nat)
    requires
        v.invulnerable_frames == 0,
        v.lives > 0,
    ensures
        k < INVULNERABILITY_FRAMES ==> after_hit(after_ticks(after_hit(v), k)).lives == after_hit(v).lives,
        k >= INVULNERABILITY_FRAMES ==> after_hit(after_ticks(after_hit(v), k)).lives + 1 == after_hit(v).lives
            || after_hit(v).lives == 0,
    decreases k,
{
    lemma_ticks(after_hit(v), k);
}

/// `k` frames take `k` frames off the grace period (down to zero) and leave
/// lives and hiding alone.
pub proof fn lemma_ticks(v: Vitals, k: nat)
    ensures
        after_ticks(v, k).lives == v.lives,
        after_ticks(v, k).hidden == v.hidden,
        after_ticks(v, k).invulnerable_frames == (if k >= v.invulnerable_frames { 0 } else { v.invulnerable_frames - k }),
    decreases k,
{
    if k > 0 {
        lemma_ticks(v, (k - 1) as nat);
    }
}

} // verus!
