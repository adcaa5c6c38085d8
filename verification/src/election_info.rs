//! The election definition: a title, a question, and an ordered sequence of
//! named, described alternatives. Loaded once at startup and read-only
//! thereafter; the name is the unique key used everywhere downstream.

use vstd::prelude::*;

use crate::codec::push_char;

verus! {

/// One named, described alternative in the election.
pub struct Choice {
    name: String,
    description: String,
}

/// The line a choice shows as: `name: description`.
pub open spec fn choice_line(c: (Seq<char>, Seq<char>)) -> Seq<char> {
    c.0 + seq![':', ' '] + c.1
}

impl Clone for Choice {
    fn clone(&self) -> (r: Self)
        ensures
            r@ == self@,
    {
        Choice { name: self.name.clone(), description: self.description.clone() }
    }
}

impl Choice {
    /// The choice as specifications see it: its name and description.
    pub closed spec fn view(&self) -> (Seq<char>, Seq<char>) {
        (self.name@, self.description@)
    }

    pub fn new(name: String, description: String) -> (r: Choice)
        ensures
            r@ == (name@, description@),
    {
        Choice { name, description }
    }

    pub fn name(&self) -> (r: String)
        ensures
            r@ == self@.0,
    {
        self.name.clone()
    }

    pub fn description(&self) -> (r: String)
        ensures
            r@ == self@.1,
    {
        self.description.clone()
    }

    /// The choice as shown to an operator or voter: `name: description`.
    pub fn display_string(&self) -> (r: String)
        ensures
            r@ == choice_line(self@),
    {
        let mut out = self.name.clone();
        push_char(&mut out, ':');
        push_char(&mut out, ' ');
        out.append(self.description.as_str());
        proof {
            assert(out@ =~= choice_line(self@));
        }
        out
    }
}

/// The lines of the alternatives, one per line, each indented by a tab.
pub open spec fn choice_lines(alts: Seq<(Seq<char>, Seq<char>)>) -> Seq<char>
    decreases alts.len(),
{
    if alts.len() == 0 {
        Seq::empty()
    } else {
        seq!['\t'] + choice_line(alts[0]) + seq!['\n'] + choice_lines(alts.drop_first())
    }
}

/// The text an election definition shows as: the title and question, then
/// one line per alternative.
pub open spec fn election_text(title: Seq<char>, question: Seq<char>, alts: Seq<(Seq<char>, Seq<char>)>) -> Seq<char> {
    seq!['\t'] + title + seq!['\n'] + question + seq!['\n'] + choice_lines(alts)
}

/// An election definition. Immutable once loaded.
pub struct Election {
    title: String,
    question: String,
    alternatives: Vec<Choice>,
}

impl Election {
    /// The definition as specifications see it: title, question, and the
    /// name-description pairs of its alternatives, in order.
    pub closed spec fn view(&self) -> (Seq<char>, Seq<char>, Seq<(Seq<char>, Seq<char>)>) {
        (self.title@, self.question@, self.alternatives@.map_values(|c: Choice| c@))
    }

    pub fn new(title: String, question: String, alternatives: Vec<Choice>) -> (r: Election)
        ensures
            r@ == (title@, question@, alternatives@.map_values(|c: Choice| c@)),
    {
        Election { title, question, alternatives }
    }

    pub fn title(&self) -> (r: String)
        ensures
            r@ == self@.0,
    {
        self.title.clone()
    }

    pub fn question(&self) -> (r: String)
        ensures
            r@ == self@.1,
    {
        self.question.clone()
    }

    /// The alternatives, in order.
    pub fn iter(&self) -> (r: &Vec<Choice>)
        ensures
            r@.map_values(|c: Choice| c@) == self@.2,
    {
        &self.alternatives
    }

    /// The names of the alternatives, in order: the known-name set that
    /// ballots are parsed against.
    pub fn alternative_names(&self) -> (r: Vec<String>)
        ensures
            r@.map_values(|s: String| s@) == self@.2.map_values(|c: (Seq<char>, Seq<char>)| c.0),
    {
        let mut names: Vec<String> = Vec::new();
        let n = self.alternatives.len();
        let mut i: usize = 0;
        while i < n
            invariant
                n == self.alternatives@.len(),
                i <= n,
                names@.len() == i,
                forall|k: int| 0 <= k < i ==> (#[trigger] names@[k])@ == self.alternatives@[k]@.0,
            decreases n - i,
        {
            names.push(self.alternatives[i].name());
            i += 1;
        }
        proof {
            assert(names@.map_values(|s: String| s@) =~= self@.2.map_values(
                |c: (Seq<char>, Seq<char>)| c.0,
            ));
        }
        names
    }

    /// The definition as shown to an operator or voter.
    pub fn display_string(&self) -> (r: String)
        ensures
            r@ == election_text(self@.0, self@.1, self@.2),
    {
        let ghost alts = self@.2;
        let mut out = String::new();
        push_char(&mut out, '\t');
        out.append(self.title.as_str());
        push_char(&mut out, '\n');
        out.append(self.question.as_str());
        push_char(&mut out, '\n');
        let ghost head = out@;
        proof {
            assert(head =~= seq!['\t'] + self@.0 + seq!['\n'] + self@.1 + seq!['\n']);
            assert(alts.skip(0) =~= alts);
        }
        let n = self.alternatives.len();
        let mut i: usize = 0;
        while i < n
            invariant
                n == self.alternatives@.len(),
                i <= n,
                alts == self@.2,
                head == seq!['\t'] + self@.0 + seq!['\n'] + self@.1 + seq!['\n'],
                out@ + choice_lines(alts.skip(i as int)) == head + choice_lines(alts),
            decreases n - i,
        {
            let ghost out0 = out@;
            let ghost suffix = alts.skip(i as int);
            push_char(&mut out, '\t');
            let line = self.alternatives[i].display_string();
            out.append(line.as_str());
            push_char(&mut out, '\n');
            proof {
                assert(suffix[0] == alts[i as int]);
                assert(suffix.drop_first() =~= alts.skip(i + 1));
                assert(out@ =~= out0 + (seq!['\t'] + choice_line(alts[i as int]) + seq!['\n']));
                assert(out@ + choice_lines(alts.skip(i + 1)) =~= out0 + (seq!['\t'] + choice_line(
                    suffix[0],
                ) + seq!['\n'] + choice_lines(suffix.drop_first())));
            }
            i += 1;
        }
        proof {
            assert(alts.skip(n as int) =~= Seq::<(Seq<char>, Seq<char>)>::empty());
            assert(out@ + Seq::<char>::empty() =~= out@);
            assert(out@ =~= election_text(self@.0, self@.1, self@.2));
        }
        out
    }
}

} // verus!
