use vstd::prelude::*;
use vstd::string::StringExecFns;

verus! {

/// `s` repeated `n` times.
pub open spec fn repeat(s: Seq<char>, n: nat) -> Seq<char>
    decreases n,
{
    if n == 0 {
        Seq::empty()
    } else {
        repeat(s, (n - 1) as nat) + s
    }
}

/// A text being built up, with the current nesting depth for indentation.
pub struct Describe {
    pub string: String,
    pub depth: usize,
    pub indenation: String,
    /// Whether the next `indent` is skipped.
    pub _eat_next_indent: bool,
}

impl Describe {
    pub fn new() -> (r: Self)
        ensures
            r.string@ == Seq::<char>::empty(),
            r.depth == 0,
            r.indenation@ == seq![' ', ' '],
            !r._eat_next_indent,
    {
        let r = Describe {
            string: String::new(),
            depth: 0,
            indenation: "  ".to_owned(),
            _eat_next_indent: false,
        };
        proof {
            reveal_strlit("  ");
            assert(r.indenation@ =~= seq![' ', ' ']);
        }
        r
    }

    /// Writes the indentation of the current depth, unless it is to be
    /// skipped once.
    pub fn indent(&mut self)
        ensures
            final(self).depth == old(self).depth,
            final(self).indenation == old(self).indenation,
            !final(self)._eat_next_indent,
            final(self).string@ == if old(self)._eat_next_indent {
                old(self).string@
            } else {
                old(self).string@ + repeat(old(self).indenation@, old(self).depth as nat)
            },
    {
        if self._eat_next_indent {
            self._eat_next_indent = false;
            return;
        }
        let mut i: usize = 0;
        while i < self.depth
            invariant
                i <= self.depth,
                self.depth == old(self).depth,
                self.indenation == old(self).indenation,
                !self._eat_next_indent,
                self.string@ == old(self).string@ + repeat(self.indenation@, i as nat),
            decreases self.depth - i,
        {
            self.string.append(self.indenation.as_str());
            i += 1;
            proof {
                assert(self.string@ =~= old(self).string@ + repeat(self.indenation@, i as nat));
            }
        }
        proof {
            assert(old(self).string@ + repeat(self.indenation@, 0) =~= old(self).string@);
        }
    }

    pub fn push_str(&mut self, s: &str)
        ensures
            final(self).string@ == old(self).string@ + s@,
            final(self).depth == old(self).depth,
            final(self).indenation == old(self).indenation,
            final(self)._eat_next_indent == old(self)._eat_next_indent,
    {
        self.string.append(s);
    }

    /// Runs `f` one nesting level deeper, then returns to the current depth.
    pub fn nest<F: Fn(&mut Describe)>(&mut self, f: F)
        requires
            old(self).depth < usize::MAX,
            forall|d: &mut Describe| #[trigger] f.requires((d,)),
        ensures
            final(self).depth == old(self).depth,
    {
        let depth = self.depth;
        self.depth = depth + 1;
        f(self);
        self.depth = depth;
    }

    pub fn as_str(&self) -> (r: &str)
        ensures
            r@ == self.string@,
    {
        self.string.as_str()
    }

    /// Makes the next `indent` write nothing.
    pub fn eat_next_indent(&mut self)
        ensures
            final(self)._eat_next_indent,
            final(self).string == old(self).string,
            final(self).depth == old(self).depth,
            final(self).indenation == old(self).indenation,
    {
        self._eat_next_indent = true;
    }
}

/// A value that can write a description of itself.
pub trait Describer {
    fn describe(&self, describe: &mut Describe);
}

} // verus!
