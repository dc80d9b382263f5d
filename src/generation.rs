use crate::model::{slide, window, Data, END};
use crate::text::{ascii_lower, ascii_upper, lower_char, to_string, upper, upper_char};
use rand::rngs::StdRng;
use vstd::prelude::*;

verus! {

/// How a name drawn as `s` is rendered: its first character in uppercase,
/// the others in lowercase.
pub open spec fn title(s: Seq<char>) -> Seq<char> {
    Seq::new(s.len(), |i: int| if i == 0 { upper_char(s[i]) } else { lower_char(s[i]) })
}

/// A name being drawn from a model, one character at a time.
pub struct Generation {
    /// The last `context_length` characters drawn, padded with start
    /// sentinels.
    pub context: Vec<char>,
    /// The characters drawn so far, as they will be shown.
    pub rendered: Vec<char>,
    /// The characters drawn so far, as the model holds them.
    pub drawn: Ghost<Seq<char>>,
}

/// What one draw did.
pub enum Step {
    /// A character was drawn and appended.
    Emitted,
    /// The end marker was drawn: the name is complete.
    Finished,
    /// No table is filed under the current context.
    NoSuchContext,
}

impl Generation {
    /// The context follows the characters drawn, and the rendering is their
    /// title case.
    pub open spec fn wf(&self, k: nat) -> bool {
        &&& self.context@ == window(k, self.drawn@, self.drawn@.len() as int)
        &&& self.rendered@ == title(self.drawn@)
    }

    /// Takes one drawn outcome: the end marker finishes the name and changes
    /// nothing; any other character is rendered and slides the context.
    pub fn apply(&mut self, next: char) -> (finished: bool)
        requires
            old(self).wf(old(self).context@.len()),
            old(self).context@.len() >= 1,
        ensures
            finished == (next == END),
            finished ==> *final(self) == *old(self),
            !finished ==> final(self).drawn@ == old(self).drawn@.push(next),
            final(self).context@.len() == old(self).context@.len(),
            final(self).wf(old(self).context@.len()),
    {
        let ghost k = self.context@.len();
        if next == END {
            return true;
        }
        let ghost d = self.drawn@;
        let shown = if self.rendered.len() == 0 {
            ascii_upper(next)
        } else {
            ascii_lower(next)
        };
        self.rendered.push(shown);
        self.context = slide(&self.context, next);
        self.drawn = Ghost(d.push(next));
        proof {
            assert(self.rendered@ =~= title(self.drawn@));
            assert(self.context@ =~= window(k, self.drawn@, self.drawn@.len() as int));
        }
        false
    }

    /// The name drawn so far, as shown.
    pub fn name(&self) -> (r: String)
        ensures
            r@ == self.rendered@,
    {
        to_string(&self.rendered)
    }
}

impl Data {
    /// A generation that has drawn nothing yet, at the initial context.
    pub fn start_generation(&self) -> (g: Generation)
        requires
            self.wf(),
        ensures
            g.wf(self.context_length as nat),
            g.drawn@.len() == 0,
    {
        let context = self.initial_context();
        let g = Generation { context, rendered: Vec::new(), drawn: Ghost(Seq::empty()) };
        proof {
            assert(g.context@ =~= window(self.context_length as nat, Seq::empty(), 0));
            assert(g.rendered@ =~= title(Seq::empty()));
        }
        g
    }

    /// Draws the next outcome from the table filed under the current
    /// context and applies it.
    pub fn advance(&self, g: &mut Generation, rng: &mut StdRng) -> (r: Step)
        requires
            self.wf(),
            old(g).wf(self.context_length as nat),
        ensures
            final(g).wf(self.context_length as nat),
            r is NoSuchContext <==> !self.has_table(old(g).context@),
            r is NoSuchContext ==> *final(g) == *old(g),
            r is Finished ==> *final(g) == *old(g) && self.table_count(old(g).context@, END) > 0,
            r is Emitted ==> exists|next: char|
                next != END && self.table_count(old(g).context@, next) > 0 && final(g).drawn@
                    == old(g).drawn@.push(next),
    {
        match self.table_for(&g.context) {
            None => Step::NoSuchContext,
            Some(t) => {
                let next = t.rand(rng);
                proof {
                    assert(window(self.context_length as nat, g.drawn@, g.drawn@.len() as int).len()
                        == self.context_length);
                }
                if g.apply(next) {
                    Step::Finished
                } else {
                    Step::Emitted
                }
            },
        }
    }
}

/// Names are shown in title case: the first character is uppercase and the
/// others are lowercase.
pub proof fn lemma_rendered_title_case(s: Seq<char>)
    ensures
        forall|i: int| 0 <= i < s.len() ==> {
            if i == 0 {
                upper_char(#[trigger] title(s)[i]) == title(s)[i]
            } else {
                lower_char(title(s)[i]) == title(s)[i]
            }
        },
{
    assert forall|i: int| 0 <= i < s.len() implies {
        if i == 0 {
            upper_char(#[trigger] title(s)[i]) == title(s)[i]
        } else {
            lower_char(title(s)[i]) == title(s)[i]
        }
    } by {
        let c = s[i];
        if 'a' <= c && c <= 'z' {
            assert((((c as u32) - 32) as char) as u32 == (c as u32) - 32);
        }
        if 'A' <= c && c <= 'Z' {
            assert((((c as u32) + 32) as char) as u32 == (c as u32) + 32);
        }
    }
}

/// Uppercasing the rendering of an uppercase name gives the name back, so
/// a rendered name can be checked against the names trained on.
pub proof fn lemma_title_round_trip(s: Seq<char>)
    requires
        upper(s) == s,
    ensures
        upper(title(s)) == s,
{
    assert forall|i: int| 0 <= i < s.len() implies upper_char(#[trigger] title(s)[i]) == s[i] by {
        let c = s[i];
        assert(upper(s)[i] == upper_char(c));
        if 'A' <= c && c <= 'Z' {
            assert((((c as u32) + 32) as char) as u32 == (c as u32) + 32);
        }
        if 'a' <= c && c <= 'z' {
            assert((((c as u32) - 32) as char) as u32 == (c as u32) - 32);
        }
    }
    assert(upper(title(s)) =~= s);
}

} // verus!
