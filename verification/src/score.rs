use vstd::prelude::*;

verus! {

/// The points of one session. They only ever grow.
#[derive(Debug)]
pub struct Score(usize);

impl View for Score {
    type V = nat;

    closed spec fn view(&self) -> nat {
        self.0 as nat
    }
}

impl Score {
    /// Adds `val` to the score.
    pub fn add(&mut self, val: usize)
        requires
            old(self)@ + val <= usize::MAX,
        ensures
            final(self)@ == old(self)@ + val,
    {
        self.0 = self.0 + val;
    }

    /// Whether the score can take `val` more points.
    pub fn has_room_for(&self, val: usize) -> (fits: bool)
        ensures
            fits <==> self@ + val <= usize::MAX,
    {
        self.0.checked_add(val).is_some()
    }

    /// The points so far.
    pub fn value(&self) -> (v: usize)
        ensures
            v == self@,
    {
        self.0
    }
}

impl Default for Score {
    fn default() -> (score: Self)
        ensures
            score@ == 0,
    {
        Self(0)
    }
}

/// The highest of the scores that it was given.
#[derive(Debug)]
pub struct BestScore(usize);

impl View for BestScore {
    type V = nat;

    closed spec fn view(&self) -> nat {
        self.0 as nat
    }
}

impl BestScore {
    /// Takes up `post` if it is higher than what is held.
    pub fn update(&mut self, post: usize)
        ensures
            final(self)@ == if old(self)@ >= post {
                old(self)@
            } else {
                post as nat
            },
    {
        let pre = self.0;
        if post > pre {
            *self = BestScore(post);
        }
    }

    /// The highest score so far.
    pub fn value(&self) -> (v: usize)
        ensures
            v == self@,
    {
        self.0
    }
}

impl Default for BestScore {
    fn default() -> (best: Self)
        ensures
            best@ == 0,
    {
        Self(0)
    }
}

} // verus!
