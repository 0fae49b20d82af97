//! Per-frame gameplay rules. The pieces live in submodules: formation
//! marching (`formation`), shooting and hit resolution (`combat`), the
//! defending cannons (`players`), the mystery ship (`ufo`), and match
//! lifecycle (`flow`). This module holds what they share: the started
//! contacts the physics step reported, and "which target did this bullet
//! touch first".

use vstd::prelude::*;

use crate::achievements::AchievementId;
use crate::types::Invader;

pub mod combat;
pub mod flow;
pub mod formation;
pub mod ids;
pub mod players;
pub mod ufo;

verus! {

/// What the world must carry out after a rule fired, in order. Effects that
/// show something at an entity's position come before that entity is
/// removed.
#[derive(Debug, Clone, Copy, PartialEq, Eq, Structural)]
pub enum Effect {
    /// Remove this entity (bullet, cannon body, mystery ship) from the world.
    Despawn(u64),
    /// An invader died: shatter in its row color, ripple the grid, remove it.
    InvaderKilled(Invader),
    /// A barrier block was eaten: chip debris where it stood, remove it.
    BlockChipped(u64),
    /// Cannon `index` took a hit: explosion and ripple where its body is
    /// (`body`), or at its spawn column when it has none.
    CannonHit { index: usize, body: Option<u64> },
    /// Cannon `index` survived a hit: move its body back to its spawn column.
    CannonRespawn { index: usize, entity: u64 },
    /// A player bullet met an invader bullet: flash where it flew.
    BulletsCancelled(u64),
    /// The mystery ship was shot down: burst and ripple where it flew.
    ShipDown(u64),
    /// Unlock an achievement.
    Unlock(AchievementId),
}

/// A contact the physics step reported between two entities this frame.
/// `started` is set on the frame the two first touch.
#[derive(Debug, Clone, Copy, PartialEq, Eq, Structural)]
pub struct Contact {
    pub started: bool,
    pub first: u64,
    pub second: u64,
}

impl Contact {
    pub open spec fn spec_involves(self, a: u64, b: u64) -> bool {
        (self.first == a && self.second == b) || (self.first == b && self.second == a)
    }

    /// Is this the contact between `a` and `b` (in either order)?
    pub fn involves(&self, a: u64, b: u64) -> (r: bool)
        ensures
            r == self.spec_involves(a, b),
    {
        (self.first == a && self.second == b) || (self.first == b && self.second == a)
    }
}

/// Did `a` and `b` start touching this frame?
pub open spec fn touched(contacts: Seq<Contact>, a: u64, b: u64) -> bool {
    exists|k: int| 0 <= k < contacts.len() && contacts[k].started && #[trigger] contacts[k].spec_involves(a, b)
}

/// Did `a` and `b` start touching this frame?
pub fn started_contact(contacts: &[Contact], a: u64, b: u64) -> (r: bool)
    ensures
        r == touched(contacts@, a, b),
{
    let mut k: usize = 0;
    while k < contacts.len()
        invariant
            k <= contacts.len(),
            forall|j: int| 0 <= j < k ==> !(contacts@[j].started && #[trigger] contacts@[j].spec_involves(a, b)),
        decreases contacts.len() - k,
    {
        if contacts[k].started && contacts[k].involves(a, b) {
            return true;
        }
        k = k + 1;
    }
    false
}

/// The entities of a list of invaders, in order.
pub open spec fn entities(invaders: Seq<Invader>) -> Seq<u64> {
    invaders.map_values(|i: Invader| i.entity)
}

/// Index of the first of `targets` that `bullet` started touching, or
/// `targets.len()` when it touched none of them.
pub open spec fn first_touched(targets: Seq<u64>, bullet: u64, contacts: Seq<Contact>) -> int
    decreases targets.len(),
{
    if targets.len() == 0 {
        0
    } else if touched(contacts, bullet, targets[0]) {
        0
    } else {
        1 + first_touched(targets.drop_first(), bullet, contacts)
    }
}

/// `first_touched` is the least touched index, or the length when there is none.
pub proof fn lemma_first_touched(targets: Seq<u64>, bullet: u64, contacts: Seq<Contact>)
    ensures
        0 <= first_touched(targets, bullet, contacts) <= targets.len(),
        forall|j: int|
            0 <= j < first_touched(targets, bullet, contacts) ==> !touched(contacts, bullet, #[trigger] targets[j]),
        first_touched(targets, bullet, contacts) < targets.len() ==> touched(
            contacts,
            bullet,
            targets[first_touched(targets, bullet, contacts)],
        ),
    decreases targets.len(),
{
    if targets.len() > 0 && !touched(contacts, bullet, targets[0]) {
        let rest = targets.drop_first();
        lemma_first_touched(rest, bullet, contacts);
        assert forall|j: int| 0 <= j < first_touched(targets, bullet, contacts) implies !touched(
            contacts,
            bullet,
            #[trigger] targets[j],
        ) by {
            if j > 0 {
                assert(targets[j] == rest[j - 1]);
            }
        }
    }
}

/// Index of the first of `targets` that `bullet` started touching, or
/// `targets.len()` when it touched none of them.
pub fn first_touched_index(targets: &[u64], bullet: u64, contacts: &[Contact]) -> (r: usize)
    ensures
        r == first_touched(targets@, bullet, contacts@),
{
    proof {
        lemma_first_touched(targets@, bullet, contacts@);
    }
    let mut i: usize = 0;
    while i < targets.len()
        invariant
            i <= targets.len(),
            forall|j: int| 0 <= j < i ==> !touched(contacts@, bullet, #[trigger] targets@[j]),
        decreases targets.len() - i,
    {
        if started_contact(contacts, bullet, targets[i]) {
            proof {
                lemma_first_touched(targets@, bullet, contacts@);
            }
            return i;
        }
        i = i + 1;
    }
    i
}

/// Index of the first invader that `bullet` started touching, or
/// `invaders.len()` when it touched none of them.
pub fn first_invader_touched(invaders: &[Invader], bullet: u64, contacts: &[Contact]) -> (r: usize)
    ensures
        r == first_touched(entities(invaders@), bullet, contacts@),
{
    proof {
        lemma_first_touched(entities(invaders@), bullet, contacts@);
    }
    let mut i: usize = 0;
    while i < invaders.len()
        invariant
            i <= invaders.len(),
            entities(invaders@).len() == invaders@.len(),
            forall|j: int| 0 <= j < i ==> !touched(contacts@, bullet, #[trigger] entities(invaders@)[j]),
        decreases invaders.len() - i,
    {
        assert(entities(invaders@)[i as int] == invaders@[i as int].entity);
        if started_contact(contacts, bullet, invaders[i].entity) {
            proof {
                lemma_first_touched(entities(invaders@), bullet, contacts@);
            }
            return i;
        }
        i = i + 1;
    }
    i
}

/// Index of the first element of `s` that satisfies `p`, or `s.len()` when
/// none does.
pub open spec fn first_where<A>(s: Seq<A>, p: spec_fn(A) -> bool) -> int
    decreases s.len(),
{
    if s.len() == 0 {
        0
    } else if p(s[0]) {
        0
    } else {
        1 + first_where(s.drop_first(), p)
    }
}

/// `first_where` is the least index satisfying `p`, or the length when there
/// is none.
pub proof fn lemma_first_where<A>(s: Seq<A>, p: spec_fn(A) -> bool)
    ensures
        0 <= first_where(s, p) <= s.len(),
        forall|j: int| 0 <= j < first_where(s, p) ==> !p(#[trigger] s[j]),
        first_where(s, p) < s.len() ==> p(s[first_where(s, p)]),
    decreases s.len(),
{
    if s.len() > 0 && !p(s[0]) {
        let rest = s.drop_first();
        lemma_first_where(rest, p);
        assert forall|j: int| 0 <= j < first_where(s, p) implies !p(#[trigger] s[j]) by {
            if j > 0 {
                assert(s[j] == rest[j - 1]);
            }
        }
    }
}

/// Filtering only keeps elements of the original sequence.
pub proof fn lemma_filter_subset<A>(s: Seq<A>, p: spec_fn(A) -> bool)
    ensures
        forall|i: int| 0 <= i < s.filter(p).len() ==> s.contains(#[trigger] s.filter(p)[i]),
    decreases s.len(),
{
    reveal(Seq::filter);
    if s.len() > 0 {
        lemma_filter_subset(s.drop_last(), p);
        let f = s.filter(p);
        let prev = s.drop_last().filter(p);
        assert forall|i: int| 0 <= i < f.len() implies s.contains(#[trigger] f[i]) by {
            if i < prev.len() {
                assert(f[i] == prev[i]);
                let j = choose|j: int| 0 <= j < s.drop_last().len() && s.drop_last()[j] == prev[i];
                assert(s[j] == f[i]);
            } else {
                assert(f[i] == s.last());
                assert(s[s.len() - 1] == f[i]);
            }
        }
    }
}

/// Filtering twice keeps what passes both tests.
pub proof fn lemma_filter_twice<A>(s: Seq<A>, p: spec_fn(A) -> bool, q: spec_fn(A) -> bool)
    ensures
        s.filter(p).filter(q) == s.filter(|x: A| p(x) && q(x)),
    decreases s.len(),
{
    reveal(Seq::filter);
    if s.len() > 0 {
        lemma_filter_twice(s.drop_last(), p, q);
        s.drop_last().filter(p).lemma_filter_push(s.last(), q);
    }
}

/// Two tests that agree on every element of `s` keep the same elements.
pub proof fn lemma_filter_agree<A>(s: Seq<A>, p: spec_fn(A) -> bool, q: spec_fn(A) -> bool)
    requires
        forall|i: int| 0 <= i < s.len() ==> p(#[trigger] s[i]) == q(s[i]),
    ensures
        s.filter(p) == s.filter(q),
    decreases s.len(),
{
    reveal(Seq::filter);
    if s.len() > 0 {
        assert(forall|i: int| 0 <= i < s.drop_last().len() ==> #[trigger] s.drop_last()[i] == s[i]);
        lemma_filter_agree(s.drop_last(), p, q);
        assert(p(s[s.len() - 1]) == q(s[s.len() - 1]));
    }
}

/// A test that every element of `s` passes keeps all of `s`.
pub proof fn lemma_filter_keeps_all<A>(s: Seq<A>, p: spec_fn(A) -> bool)
    requires
        forall|i: int| 0 <= i < s.len() ==> p(#[trigger] s[i]),
    ensures
        s.filter(p) == s,
    decreases s.len(),
{
    reveal(Seq::filter);
    if s.len() > 0 {
        assert(forall|i: int| 0 <= i < s.drop_last().len() ==> #[trigger] s.drop_last()[i] == s[i]);
        lemma_filter_keeps_all(s.drop_last(), p);
        assert(p(s[s.len() - 1]));
        assert(s.drop_last().push(s.last()) =~= s);
    }
}

/// Filtering a list without repeats leaves a list without repeats.
pub proof fn lemma_filter_no_duplicates<A>(s: Seq<A>, p: spec_fn(A) -> bool)
    requires
        s.no_duplicates(),
    ensures
        s.filter(p).no_duplicates(),
    decreases s.len(),
{
    reveal(Seq::filter);
    if s.len() > 0 {
        let r = s.drop_last();
        assert(r.no_duplicates()) by {
            assert forall|i: int, j: int| 0 <= i < r.len() && 0 <= j < r.len() && i != j implies r[i] != r[j] by {
                assert(r[i] == s[i] && r[j] == s[j]);
            }
        }
        lemma_filter_no_duplicates(r, p);
        if p(s.last()) {
            let f = r.filter(p);
            if f.contains(s.last()) {
                r.lemma_filter_contains_rev(p, s.last());
                let i = choose|i: int| 0 <= i < r.len() && r[i] == s.last();
                assert(s[i] == s[s.len() - 1]);
            }
            let g = f.push(s.last());
            assert forall|i: int, j: int| 0 <= i < g.len() && 0 <= j < g.len() && i != j implies g[i] != g[j] by {
                if i < f.len() && j < f.len() {
                    assert(g[i] == f[i] && g[j] == f[j]);
                } else if i < f.len() {
                    assert(f.contains(g[i]));
                } else if j < f.len() {
                    assert(f.contains(g[j]));
                }
            }
        }
    }
}

/// Keeps every id but `x`.
pub open spec fn other_than(x: u64) -> spec_fn(u64) -> bool {
    |y: u64| y != x
}

/// Drop every occurrence of `x` from `v`, keeping the order of the rest.
pub fn remove_all(v: &mut Vec<u64>, x: u64)
    ensures
        final(v)@ == old(v)@.filter(other_than(x)),
{
    let ghost pred = other_than(x);
    let mut kept: Vec<u64> = Vec::new();
    let mut i: usize = 0;
    while i < v.len()
        invariant
            i <= v.len(),
            v@ == old(v)@,
            pred == other_than(x),
            kept@ == v@.take(i as int).filter(pred),
        decreases v.len() - i,
    {
        proof {
            reveal(Seq::filter);
            assert(v@.take(i + 1).drop_last() =~= v@.take(i as int));
            assert(v@.take(i + 1).last() == v@[i as int]);
        }
        if v[i] != x {
            assert(pred(v@[i as int]));
            kept.push(v[i]);
        } else {
            assert(!pred(v@[i as int]));
        }
        i = i + 1;
    }
    proof {
        assert(v@.take(v@.len() as int) =~= v@);
    }
    *v = kept;
}

} // verus!
