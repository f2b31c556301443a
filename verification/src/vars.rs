//! Variables: names with texts, where setting a name again replaces its text.
use crate::text;
use vstd::prelude::*;

verus! {

/// Variables, in the order in which they were set; the last setting of a name counts.
#[derive(Debug, Clone)]
pub struct Vars {
    pub entries: Vec<(String, String)>,
}

/// The variables after a list of settings.
pub open spec fn settled(entries: Seq<(String, String)>) -> Map<Seq<char>, Seq<char>>
    decreases entries.len(),
{
    if entries.len() == 0 {
        Map::empty()
    } else {
        settled(entries.drop_last()).insert(entries.last().0@, entries.last().1@)
    }
}

impl View for Vars {
    type V = Map<Seq<char>, Seq<char>>;

    open spec fn view(&self) -> Map<Seq<char>, Seq<char>> {
        settled(self.entries@)
    }
}

impl Vars {
    /// No variables.
    pub fn new() -> (r: Vars)
        ensures
            r@ == Map::<Seq<char>, Seq<char>>::empty(),
    {
        Vars { entries: Vec::new() }
    }

    /// Sets a variable.
    pub fn set(&mut self, name: &str, value: &str)
        ensures
            final(self)@ == old(self)@.insert(name@, value@),
    {
        let n = text::chars_of(name);
        let v = text::chars_of(value);
        let ghost before = self.entries@;
        self.entries.push((text::string_of(&n), text::string_of(&v)));
        assert(self.entries@.drop_last() =~= before);
    }

    /// The text of a variable.
    pub fn get(&self, name: &str) -> (r: Option<String>)
        ensures
            match r {
                Some(s) => self@.contains_key(name@) && self@[name@] == s@,
                None => !self@.contains_key(name@),
            },
    {
        let mut n: usize = self.entries.len();
        assert(self.entries@.take(n as int) =~= self.entries@);
        while n > 0
            invariant
                n <= self.entries.len(),
                self@.contains_key(name@) == settled(self.entries@.take(n as int)).contains_key(
                    name@,
                ),
                self@.contains_key(name@) ==> self@[name@] == settled(
                    self.entries@.take(n as int),
                )[name@],
            decreases n,
        {
            let ghost cur = self.entries@.take(n as int);
            proof {
                assert(cur.drop_last() =~= self.entries@.take(n - 1));
                assert(cur.last() == self.entries@[n - 1]);
            }
            if text::same_str(self.entries[n - 1].0.as_str(), name) {
                return Some(self.entries[n - 1].1.clone());
            }
            n -= 1;
        }
        None
    }

    /// A copy.
    pub fn dup(&self) -> (r: Vars)
        ensures
            r@ == self@,
    {
        let mut r = Vars::new();
        assert(settled(self.entries@.take(0)) == Map::<Seq<char>, Seq<char>>::empty());
        for i in 0..self.entries.len()
            invariant
                r@ == settled(self.entries@.take(i as int)),
        {
            let ghost cur = self.entries@.take(i + 1);
            proof {
                assert(cur.drop_last() =~= self.entries@.take(i as int));
                assert(cur.last() == self.entries@[i as int]);
            }
            r.set(self.entries[i].0.as_str(), self.entries[i].1.as_str());
        }
        assert(self.entries@.take(self.entries@.len() as int) =~= self.entries@);
        r
    }
}

} // verus!
