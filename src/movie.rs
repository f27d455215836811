use vstd::prelude::*;

verus! {

/// What producing the next frame of an animation takes.
#[derive(Clone, Copy, Debug, PartialEq, Eq, Structural)]
pub enum FrameAction {
    /// The scene changed: render frame number `0`.
    Render(usize),
    /// Nothing changed since frame `0`: frame `1` is a copy of it.
    Copy(usize, usize),
}

/// An animation being recorded: the number of the next frame, and whether the
/// scene changed since the last one.
pub struct MovieCfg {
    name: String,
    cnt: usize,
    modif: bool,
}

impl View for MovieCfg {
    type V = (Seq<char>, nat, bool);

    closed spec fn view(&self) -> (Seq<char>, nat, bool) {
        (self.name@, self.cnt as nat, self.modif)
    }
}

impl MovieCfg {
    /// A frame can be copied only from an earlier one.
    pub open spec fn wf(&self) -> bool {
        self@.2 || self@.1 > 0
    }

    /// A new animation: its first frame is rendered.
    pub fn new(name: String) -> (r: MovieCfg)
        ensures
            r@ == (name@, 0nat, true),
            r.wf(),
    {
        MovieCfg { name, cnt: 0, modif: true }
    }

    /// Name of the animation.
    pub fn name(&self) -> (r: &String)
        ensures
            r@ == self@.0,
    {
        &self.name
    }

    /// Number of the next frame.
    pub fn count(&self) -> (r: usize)
        ensures
            r == self@.1,
    {
        self.cnt
    }

    /// Whether the scene changed since the last frame.
    pub fn modified(&self) -> (r: bool)
        ensures
            r == self@.2,
    {
        self.modif
    }

    /// The scene changed: the next frame is rendered.
    pub fn refresh(&mut self)
        ensures
            final(self)@ == (old(self)@.0, old(self)@.1, true),
            final(self).wf(),
    {
        self.modif = true;
    }

    /// Takes the next frame: rendered if the scene changed since the last
    /// frame, else copied from the last frame.
    pub fn frame(&mut self) -> (r: FrameAction)
        requires
            old(self).wf(),
            old(self)@.1 < usize::MAX,
        ensures
            r == (if old(self)@.2 {
                FrameAction::Render(old(self)@.1 as usize)
            } else {
                FrameAction::Copy((old(self)@.1 - 1) as usize, old(self)@.1 as usize)
            }),
            final(self)@ == (old(self)@.0, old(self)@.1 + 1, false),
            final(self).wf(),
    {
        let r = if self.modif {
            FrameAction::Render(self.cnt)
        } else {
            FrameAction::Copy(self.cnt - 1, self.cnt)
        };
        self.cnt = self.cnt + 1;
        self.modif = false;
        r
    }
}

} // verus!
